//! Classification selection: argmax over engine scores and the confidence
//! gate.
//!
//! The inference engine returns one score per class on an arbitrary scale.
//! The library works on fixed-point scores in thousandths of the engine's
//! raw units, so the selection logic stays in integers; callers scale the
//! engine's output by `SCORE_SCALE` when converting. The winning class is
//! the argmax, ties broken by the first index encountered, and its label is
//! displayed only when its score clears the confidence threshold — a magic
//! constant tied to the trained model's logit scale.

use vstd::prelude::*;

verus! {

/// Fixed-point factor: score units per engine unit.
pub const SCORE_SCALE: i64 = 1000;

/// The confidence gate: 10 engine units, in fixed-point thousandths. A
/// prediction at or below it displays as empty.
pub const CONFIDENCE_THRESHOLD: i64 = 10 * SCORE_SCALE;

/// `k` is the first index holding the maximum of `s`.
pub open spec fn is_first_argmax(s: Seq<i64>, k: int) -> bool {
    0 <= k < s.len() && (forall|i: int| 0 <= i < s.len() ==> s[i] <= s[k]) && (forall|i: int|
        0 <= i < k ==> s[i] < s[k])
}

/// Selects the winning class: the highest score, ties broken by the first
/// index. Returns the index and its score; nothing on an empty score
/// vector.
pub fn argmax(scores: &Vec<i64>) -> (r: Option<(usize, i64)>)
    ensures
        r is None <==> scores@.len() == 0,
        r matches Some(pair) ==> is_first_argmax(scores@, pair.0 as int) && pair.1 == scores@[pair.0 as int],
{
    if scores.len() == 0 {
        return None;
    }
    let mut best_idx: usize = 0;
    let mut best: i64 = scores[0];
    let mut i: usize = 1;
    while i < scores.len()
        invariant
            1 <= i <= scores@.len(),
            best_idx < i,
            best == scores@[best_idx as int],
            forall|k: int| 0 <= k < i ==> scores@[k] <= best,
            forall|k: int| 0 <= k < best_idx ==> scores@[k] < best,
        decreases scores@.len() - i,
    {
        let v = scores[i];
        if v > best {
            best = v;
            best_idx = i;
        }
        i = i + 1;
    }
    Some((best_idx, best))
}

/// Applies the confidence gate to the engine's scores: the first argmax
/// class when its score strictly exceeds the threshold, else nothing — the
/// display then stays empty.
pub fn select_display(scores: &Vec<i64>) -> (d: Option<usize>)
    ensures
        d matches Some(k) ==> is_first_argmax(scores@, k as int) && scores@[k as int]
            > CONFIDENCE_THRESHOLD,
        d is None ==> forall|i: int|
            0 <= i < scores@.len() ==> #[trigger] scores@[i] <= CONFIDENCE_THRESHOLD,
{
    match argmax(scores) {
        Some((k, score)) => {
            if score > CONFIDENCE_THRESHOLD {
                Some(k)
            } else {
                None
            }
        }
        None => None,
    }
}

} // verus!
