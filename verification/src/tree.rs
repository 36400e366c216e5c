//! Decision trees over binned rows.

use crate::float::F32;
use vstd::prelude::*;

verus! {

/// A decision tree: a leaf gives its value, a split sends a row left where the bin of its feature
/// is at most the threshold. A split keeps the value that it would have as a leaf.
pub enum Shape {
    Leaf { value: F32 },
    Split { feature: nat, threshold: u8, value: F32, left: Box<Shape>, right: Box<Shape> },
}

impl Shape {
    /// The value of the leaf that a row ends in.
    pub open spec fn eval(self, row: Seq<u8>) -> F32
        decreases self,
    {
        match self {
            Shape::Leaf { value } => value,
            Shape::Split { feature, threshold, left, right, .. } => if row[feature as int]
                <= threshold {
                left.eval(row)
            } else {
                right.eval(row)
            },
        }
    }

    /// Whether every split looks at one of the first `d` features.
    pub open spec fn reads_below(self, d: nat) -> bool
        decreases self,
    {
        match self {
            Shape::Leaf { .. } => true,
            Shape::Split { feature, left, right, .. } => feature < d && left.reads_below(d)
                && right.reads_below(d),
        }
    }

    /// Whether every split leaves a bin of its feature on either side.
    pub open spec fn cuts_within(self, bins: Seq<nat>) -> bool
        decreases self,
    {
        match self {
            Shape::Leaf { .. } => true,
            Shape::Split { feature, threshold, left, right, .. } => threshold + 1
                < bins[feature as int] && left.cuts_within(bins) && right.cuts_within(bins),
        }
    }

    /// Whether some split looks at feature `f`.
    pub open spec fn reads(self, f: int) -> bool
        decreases self,
    {
        match self {
            Shape::Leaf { .. } => false,
            Shape::Split { feature, left, right, .. } => feature == f || left.reads(f)
                || right.reads(f),
        }
    }

    /// The number of leaves and splits.
    pub open spec fn size(self) -> nat
        decreases self,
    {
        match self {
            Shape::Leaf { .. } => 1,
            Shape::Split { left, right, .. } => 1 + left.size() + right.size(),
        }
    }

    /// The tree as a list of nodes for the positions from `at`: a split is followed by the nodes of
    /// its left side, and those by the nodes of its right side.
    pub open spec fn listed(self, at: nat) -> Seq<Node>
        decreases self,
    {
        match self {
            Shape::Leaf { value } => seq![
                Node { feature: NO_FEATURE, bin_thr: 0, left: 0, right: 0, value },
            ],
            Shape::Split { feature, threshold, value, left, right } => {
                let l = at + 1;
                let r = at + 1 + left.size();
                seq![
                    Node {
                        feature: feature as usize,
                        bin_thr: threshold,
                        left: l as usize,
                        right: r as usize,
                        value,
                    },
                ] + left.listed(l) + right.listed(r)
            },
        }
    }

    /// The largest number of splits that a row can meet.
    pub open spec fn depth(self) -> nat
        decreases self,
    {
        match self {
            Shape::Leaf { .. } => 0,
            Shape::Split { left, right, .. } => {
                let (l, r) = (left.depth(), right.depth());
                1 + (if l < r { r } else { l })
            },
        }
    }
}

/// The feature of a node that is a leaf.
pub const NO_FEATURE: usize = usize::MAX;

/// A node of a tree that is kept as a list. The children of a split come later in the list.
pub struct Node {
    pub feature: usize,
    pub bin_thr: u8,
    pub left: usize,
    pub right: usize,
    pub value: F32,
}

/// Whether the splits among the nodes from `low` up to `high` lead to later nodes before `high`.
pub open spec fn linked(nodes: Seq<Node>, low: int, high: int) -> bool {
    forall|i: int|
        low <= i < high && (#[trigger] nodes[i]).feature != NO_FEATURE ==> i < nodes[i].left < high
            && i < nodes[i].right < high
}

/// The tree that starts at a node.
pub open spec fn shape_at(nodes: Seq<Node>, i: int) -> Shape
    decreases nodes.len() - i,
{
    if 0 <= i < nodes.len() {
        let nd = nodes[i];
        if nd.feature == NO_FEATURE || !(i < nd.left < nodes.len() && i < nd.right
            < nodes.len()) {
            Shape::Leaf { value: nd.value }
        } else {
            Shape::Split {
                feature: nd.feature as nat,
                threshold: nd.bin_thr,
                value: nd.value,
                left: Box::new(shape_at(nodes, nd.left as int)),
                right: Box::new(shape_at(nodes, nd.right as int)),
            }
        }
    } else {
        Shape::Leaf { value: F32 { bits: 0 } }
    }
}

/// A list has one node for each leaf and split of the tree.
pub proof fn lemma_listed_length(shape: Shape, at: nat)
    ensures
        shape.listed(at).len() == shape.size(),
        shape.size() >= 1,
    decreases shape,
{
    match shape {
        Shape::Leaf { .. } => {},
        Shape::Split { left, right, .. } => {
            lemma_listed_length(*left, at + 1);
            lemma_listed_length(*right, at + 1 + left.size());
        },
    }
}

/// A list of nodes has odd length.
pub proof fn law_list_length_is_odd(shape: Shape, at: nat)
    ensures
        shape.listed(at).len() % 2 == 1,
    decreases shape,
{
    lemma_listed_length(shape, at);
    match shape {
        Shape::Leaf { .. } => {},
        Shape::Split { left, right, .. } => {
            law_list_length_is_odd(*left, at + 1);
            law_list_length_is_odd(*right, at + 1 + left.size());
            lemma_listed_length(*left, at + 1);
            lemma_listed_length(*right, at + 1 + left.size());
        },
    }
}

/// The nodes of the two sides stand in the list of a split one after the other.
proof fn lemma_listed_sides(shape: Shape, at: nat)
    requires
        shape is Split,
    ensures
        ({
            let l = shape->left.listed(at + 1);
            let r = shape->right.listed(at + 1 + shape->left.size());
            let all = shape.listed(at);
            &&& all.len() == 1 + l.len() + r.len()
            &&& l.len() == shape->left.size()
            &&& r.len() == shape->right.size()
            &&& forall|j: int| 1 <= j < 1 + l.len() ==> #[trigger] all[j] == l[j - 1]
            &&& forall|j: int|
                1 + l.len() <= j < all.len() ==> #[trigger] all[j] == r[j - 1 - l.len()]
        }),
{
    lemma_listed_length(*shape->left, at + 1);
    lemma_listed_length(*shape->right, at + 1 + shape->left.size());
}

/// Whether node `j` of a list for the positions from `at` leads to node `k`.
pub open spec fn leads(list: Seq<Node>, at: nat, j: int, k: int) -> bool {
    list[j].feature != NO_FEATURE && (list[j].left == at + k || list[j].right == at + k)
}

/// How a tree is laid out: the left side of a split is the next node, the right side comes later in
/// the list, and a split looks at a feature as the tree does.
pub proof fn law_list_goes_forward(shape: Shape, at: nat, d: nat, bins: Seq<nat>, j: int)
    requires
        shape.reads_below(d),
        shape.cuts_within(bins),
        d <= NO_FEATURE,
        at + shape.size() <= usize::MAX,
        0 <= j < shape.size(),
    ensures
        ({
            let nd = shape.listed(at)[j];
            nd.feature != NO_FEATURE ==> {
                &&& nd.left == at + j + 1
                &&& nd.left < nd.right < at + shape.size()
                &&& nd.feature < d
                &&& nd.bin_thr + 1 < bins[nd.feature as int]
            }
        }),
    decreases shape,
{
    match shape {
        Shape::Leaf { .. } => {},
        Shape::Split { left, right, .. } => {
            lemma_listed_sides(shape, at);
            lemma_listed_length(*left, at + 1);
            lemma_listed_length(*right, at + 1 + left.size());
            if 1 <= j < 1 + left.size() {
                law_list_goes_forward(*left, at + 1, d, bins, j - 1);
            } else if j > 0 {
                law_list_goes_forward(
                    *right,
                    at + 1 + left.size(),
                    d,
                    bins,
                    j - 1 - left.size(),
                );
            }
        },
    }
}

/// Every node of a list but the first has exactly one node that leads to it, and none leads to the
/// first.
pub proof fn law_list_nodes_have_one_parent(shape: Shape, at: nat, k: int)
    requires
        shape.reads_below(NO_FEATURE as nat),
        at + shape.size() <= usize::MAX,
        0 <= k < shape.size(),
    ensures
        k > 0 ==> exists|j: int| 0 <= j < k && #[trigger] leads(shape.listed(at), at, j, k),
        forall|i: int, j: int|
            0 <= i < shape.size() && 0 <= j < shape.size() && #[trigger] leads(
                shape.listed(at),
                at,
                i,
                k,
            ) && #[trigger] leads(shape.listed(at), at, j, k) ==> i == j,
        k == 0 ==> forall|j: int|
            0 <= j < shape.size() ==> !#[trigger] leads(shape.listed(at), at, j, k),
    decreases shape,
{
    match shape {
        Shape::Leaf { .. } => {},
        Shape::Split { left, right, .. } => {
            let list = shape.listed(at);
            let ls = left.size();
            let (la, ra) = (at + 1, at + 1 + ls);
            let (ll, rl) = (left.listed(la), right.listed(ra));
            lemma_listed_sides(shape, at);
            lemma_listed_length(*left, la);
            lemma_listed_length(*right, ra);
            // Nodes of a side lead to nodes of that side other than its first.
            assert forall|j: int| 0 < j < shape.size() && #[trigger] leads(list, at, j, k) implies {
                if j < 1 + ls {
                    1 < k < 1 + ls && leads(ll, la, j - 1, k - 1)
                } else {
                    1 + ls < k && leads(rl, ra, j - 1 - ls, k - 1 - ls)
                }
            } by {
                if j < 1 + ls {
                    lemma_list_stays_inside(*left, la, j - 1);
                } else {
                    lemma_list_stays_inside(*right, ra, j - 1 - ls);
                }
            }
            if k == 1 || k == 1 + ls {
                assert(leads(list, at, 0, k));
            } else if 1 < k < 1 + ls {
                law_list_nodes_have_one_parent(*left, la, k - 1);
                let j = choose|j: int| 0 <= j < k - 1 && #[trigger] leads(ll, la, j, k - 1);
                assert(list[j + 1] == ll[j]);
                assert(leads(list, at, j + 1, k));
            } else if k > 0 {
                law_list_nodes_have_one_parent(*right, ra, k - 1 - ls);
                let j = choose|j: int|
                    0 <= j < k - 1 - ls && #[trigger] leads(rl, ra, j, k - 1 - ls);
                assert(list[j + 1 + ls] == rl[j]);
                assert(leads(list, at, j + 1 + ls, k));
            }
        },
    }
}

/// A tree that looks at the first `c` features looks at the first `d`, if there are no fewer.
pub proof fn lemma_reads_below(shape: Shape, c: nat, d: nat)
    requires
        shape.reads_below(c),
        c <= d,
    ensures
        shape.reads_below(d),
    decreases shape,
{
    if let Shape::Split { left, right, .. } = shape {
        lemma_reads_below(*left, c, d);
        lemma_reads_below(*right, c, d);
    }
}

/// The nodes of a tree lead to later nodes of that tree.
proof fn lemma_list_stays_inside(shape: Shape, at: nat, j: int)
    requires
        shape.reads_below(NO_FEATURE as nat),
        at + shape.size() <= usize::MAX,
        0 <= j < shape.size(),
    ensures
        ({
            let nd = shape.listed(at)[j];
            nd.feature != NO_FEATURE ==> at + j < nd.left < nd.right < at + shape.size()
        }),
    decreases shape,
{
    match shape {
        Shape::Leaf { .. } => {},
        Shape::Split { left, right, .. } => {
            lemma_listed_sides(shape, at);
            lemma_listed_length(*left, at + 1);
            lemma_listed_length(*right, at + 1 + left.size());
            if 1 <= j < 1 + left.size() {
                lemma_list_stays_inside(*left, at + 1, j - 1);
            } else if j > 0 {
                lemma_list_stays_inside(*right, at + 1 + left.size(), j - 1 - left.size());
            }
        },
    }
}

/// The nodes of a tree, found in a longer list at their place, stand for that tree.
pub proof fn lemma_list_stands_for(nodes: Seq<Node>, shape: Shape, at: nat)
    requires
        shape.reads_below(NO_FEATURE as nat),
        at + shape.size() <= nodes.len() <= usize::MAX,
        forall|j: int| 0 <= j < shape.size() ==> #[trigger] nodes[at + j] == shape.listed(at)[j],
    ensures
        shape_at(nodes, at as int) == shape,
        linked(nodes, at as int, (at + shape.size()) as int),
    decreases shape,
{
    assert(nodes[at + 0int] == shape.listed(at)[0]);
    lemma_listed_length(shape, at);
    assert forall|i: int|
        at <= i < at + shape.size() && (#[trigger] nodes[i]).feature != NO_FEATURE implies i
        < nodes[i].left < at + shape.size() && i < nodes[i].right < at + shape.size() by {
        lemma_list_stays_inside(shape, at, i - at);
        assert(nodes[at + (i - at)] == shape.listed(at)[i - at]);
    }
    match shape {
        Shape::Leaf { .. } => {},
        Shape::Split { left, right, .. } => {
            let (la, ra) = (at + 1, at + 1 + left.size());
            lemma_listed_sides(shape, at);
            lemma_listed_length(*left, la);
            lemma_listed_length(*right, ra);
            assert forall|j: int| 0 <= j < left.size() implies #[trigger] nodes[la + j]
                == left.listed(la)[j] by {
                assert(nodes[at + (j + 1)] == shape.listed(at)[j + 1]);
            }
            assert forall|j: int| 0 <= j < right.size() implies #[trigger] nodes[ra + j]
                == right.listed(ra)[j] by {
                let i = j + 1 + left.size();
                assert(nodes[at + i] == shape.listed(at)[i]);
            }
            lemma_list_stands_for(nodes, *left, la);
            lemma_list_stands_for(nodes, *right, ra);
        },
    }
}

/// A tree for binned rows.
pub struct Tree {
    nodes: Vec<Node>,
}

impl View for Tree {
    type V = Shape;

    closed spec fn view(&self) -> Shape {
        shape_at(self.nodes@, 0)
    }
}

impl Tree {
    /// The nodes as they are kept.
    pub closed spec fn list(self) -> Seq<Node> {
        self.nodes@
    }

    /// The nodes are the tree's list, and splits lead to later nodes.
    pub closed spec fn wf(self) -> bool {
        &&& self.nodes@ == self@.listed(0)
        &&& self.nodes.len() > 0
        &&& linked(self.nodes@, 0, self.nodes.len() as int)
    }

    /// The tree that a list of nodes stands for.
    pub(crate) fn from_nodes(nodes: Vec<Node>, Ghost(shape): Ghost<Shape>) -> (r: Tree)
        requires
            nodes@ == shape.listed(0),
            shape.reads_below(NO_FEATURE as nat),
        ensures
            r.wf(),
            r@ == shape,
            r.list() == shape.listed(0),
    {
        proof {
            lemma_listed_length(shape, 0);
            assert(nodes.len() == nodes@.len());
            lemma_list_stands_for(nodes@, shape, 0);
        }
        Tree { nodes }
    }

    /// The value of the leaf that a binned row ends in.
    pub fn predict_binned(&self, row: &[u8]) -> (r: F32)
        requires
            self.wf(),
            self@.reads_below(row@.len()),
        ensures
            r == self@.eval(row@),
    {
        let mut i: usize = 0;
        loop
            invariant
                self.wf(),
                i < self.nodes.len(),
                shape_at(self.nodes@, i as int).reads_below(row@.len()),
                self@.eval(row@) == shape_at(self.nodes@, i as int).eval(row@),
            decreases self.nodes.len() - i,
        {
            let nd: &Node = &self.nodes[i];
            assert(*nd == self.nodes@[i as int]);
            if nd.feature == NO_FEATURE {
                return nd.value;
            }
            i = if row[nd.feature] <= nd.bin_thr {
                nd.left
            } else {
                nd.right
            };
        }
    }
}

} // verus!
