//! Which detections the structural cues of a page confirm.
//!
//! A detection is boosted when it is a text field (class 0) below the
//! confidence threshold and some structural field (an underscore run or a
//! line) overlaps it enough to confirm it. How each structural field stands
//! to a detection is measured by the caller.
use vstd::prelude::*;

verus! {

/// How a structural field stands to a detection.
pub enum FieldVerdict {
    /// The field does not overlap the detection, or overlaps it too little.
    Apart,
    /// The field overlaps the detection enough to confirm it.
    Confirms,
}

/// Whether some structural field confirms the detection.
pub open spec fn some_field_confirms(row: Seq<FieldVerdict>) -> bool {
    exists|k: int| 0 <= k < row.len() && #[trigger] row[k] is Confirms
}

/// Whether a detection is boosted: a text detection (class 0) below the
/// threshold that some structural field confirms.
pub open spec fn is_boosted(class_id: i32, below_threshold: bool, row: Seq<FieldVerdict>) -> bool {
    below_threshold && class_id == 0 && some_field_confirms(row)
}

/// The verdict rows as sequences.
pub open spec fn verdicts_view(v: Seq<Vec<FieldVerdict>>) -> Seq<Seq<FieldVerdict>> {
    v.map_values(|row: Vec<FieldVerdict>| row@)
}

/// Only text detections below the threshold are ever boosted, never one that
/// no structural field confirms, and always one that some field confirms.
pub proof fn lemma_boost_scope(class_id: i32, below_threshold: bool, row: Seq<FieldVerdict>, k: int)
    ensures
        is_boosted(class_id, below_threshold, row) ==> class_id == 0 && below_threshold,
        (forall|j: int| 0 <= j < row.len() ==> !(#[trigger] row[j] is Confirms)) ==> !is_boosted(
            class_id,
            below_threshold,
            row,
        ),
        class_id == 0 && below_threshold && 0 <= k < row.len() && row[k] is Confirms ==> is_boosted(
            class_id,
            below_threshold,
            row,
        ),
{
}

/// Whether some verdict of a row confirms.
fn confirmed(row: &Vec<FieldVerdict>) -> (b: bool)
    ensures
        b == some_field_confirms(row@),
{
    let mut k: usize = 0;
    while k < row.len()
        invariant
            k <= row.len(),
            forall|j: int| 0 <= j < k ==> !(#[trigger] row@[j] is Confirms),
        decreases row.len() - k,
    {
        if let FieldVerdict::Confirms = row[k] {
            assert(row@[k as int] is Confirms);
            return true;
        }
        k += 1;
    }
    false
}

/// Decides which detections to boost: detection `i` is boosted when its
/// class is text (0), it is below the confidence threshold, and some
/// structural field in `verdicts[i]` confirms it.
pub fn boost_targets(
    class_ids: &Vec<i32>,
    below_threshold: &Vec<bool>,
    verdicts: &Vec<Vec<FieldVerdict>>,
) -> (boosted: Vec<bool>)
    requires
        class_ids.len() == below_threshold.len(),
        class_ids.len() == verdicts.len(),
    ensures
        boosted.len() == class_ids.len(),
        forall|i: int|
            0 <= i < boosted.len() ==> #[trigger] boosted@[i] == is_boosted(
                class_ids@[i],
                below_threshold@[i],
                verdicts_view(verdicts@)[i],
            ),
{
    let mut boosted: Vec<bool> = Vec::new();
    let mut i: usize = 0;
    while i < class_ids.len()
        invariant
            i <= class_ids.len() == below_threshold.len() == verdicts.len(),
            boosted.len() == i,
            forall|j: int|
                0 <= j < i ==> #[trigger] boosted@[j] == is_boosted(
                    class_ids@[j],
                    below_threshold@[j],
                    verdicts_view(verdicts@)[j],
                ),
        decreases class_ids.len() - i,
    {
        let b = below_threshold[i] && class_ids[i] == 0 && confirmed(&verdicts[i]);
        boosted.push(b);
        i += 1;
    }
    boosted
}

} // verus!
