//! Functions that callers supply.

use crate::float::F32;
use vstd::prelude::*;

verus! {

/// Whether a function can be called with any number.
pub open spec fn callable<F: Fn(F32) -> F32>(f: F) -> bool {
    forall|v: F32| #[trigger] f.requires((v,))
}

/// Whether a function may have returned these results for these arguments.
pub open spec fn applied<F: Fn(F32) -> F32>(f: F, args: Seq<F32>, results: Seq<F32>) -> bool {
    &&& results.len() == args.len()
    &&& forall|i: int| 0 <= i < args.len() ==> f.ensures((args[i],), #[trigger] results[i])
}

/// Calls a function with each argument in turn.
pub fn apply<F: Fn(F32) -> F32>(f: &F, args: &Vec<F32>) -> (results: Vec<F32>)
    requires
        callable(*f),
    ensures
        applied(*f, args@, results@),
{
    let mut results: Vec<F32> = Vec::with_capacity(args.len());
    let mut i: usize = 0;
    while i < args.len()
        invariant
            callable(*f),
            i <= args.len(),
            results.len() == i,
            forall|j: int| 0 <= j < i ==> f.ensures((args@[j],), #[trigger] results@[j]),
        decreases args.len() - i,
    {
        let v: F32 = args[i];
        assert(f.requires((v,)));
        let r: F32 = f(v);
        results.push(r);
        i = i + 1;
    }
    results
}

} // verus!
