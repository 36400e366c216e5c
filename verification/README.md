# rust_gbm

Zero-config gradient boosting for regression and classification, histogram binned, verified with
[Verus](https://github.com/verus-lang/verus).

## Use

`x` is a flat row-major slice of `n_rows * n_features` numbers. Numbers are `F32` values, made from
native ones with `F32::from_bits(v.to_bits())`.

```rust
use rust_gbm::{GbmClassifier, GbmParams, GbmRegressor};

let reg = GbmRegressor::fit(&x, &y, n_rows, n_features);
let yhat = reg.predict(&x, n_rows);

// Class indices as labels; logistic loss or softmax is chosen from them.
// `exp` and `ln` are the elementary functions to train and predict with.
let clf = GbmClassifier::fit(&x, &labels, n_rows, n_features, &exp, &ln);
let class: usize = clf.predict_row(&row, &exp);
let probs = clf.predict_proba_row(&row, &exp);

let p = GbmParams { n_estimators: 400, max_depth: 4, ..GbmParams::default() };
let reg = GbmRegressor::fit_with(&x, &y, n_rows, n_features, &p);
```

| Parameter | Default |
| --- | --- |
| `n_estimators` | 200 |
| `learning_rate` | 0.05 |
| `max_depth` | 3 |
| `min_samples_leaf` | 1 |
| `subsample` | 0.8 |
| `max_bins` | 128 |
| `lambda` | 1.0 |

`app/` offers the same types over `f32`, with the standard library's `exp` and `ln`, and the
WebAssembly bindings `gbm_regress`, `gbm_classify` and `gbm_classify_proba`.

## What is proved

Every function of the library has a contract that says exactly what it returns, with no trusted
items.

- `float`: single-precision arithmetic. Each operation gives the number nearest to the exact result,
  ties to even.
- `bins`: quantile binning. Edges ascend, bins keep the order of values and fit in a byte.
- `split`, `grow`, `tree`: the tree grown on a set of rows, and the best split of each node.
- `objective`: starting scores and derivatives of the three losses.
- `rng`: the generator, and samples without repetition.
- `booster`: the rounds of a training run and the model they lead to.
- `regressor`, `classifier`, `metrics`, `batch`: the public interface.
- `laws`: what holds of the whole.
  - A model gives its training rows exactly the scores that training ended with.
  - Trees stay within their limits, and a run with fewer rounds is the beginning of a longer one.
  - Fitting is deterministic, and batches give what the fitted model predicts row by row.
  - Probabilities lie between zero and one. Those of two classes add up to exactly one, those of up
    to a hundred within 1e-4; the predicted class is the first most probable.
  - Scores of a classifier stay finite.
  - Negated targets give negated predictions. The order of rows does not move bin edges, doubling all
    features changes nothing, and a feature that does not vary is never used.

## Limits

- Numeric features only, no NaN. Encode categoricals upstream.
- Single threaded.
- No model serialization.
