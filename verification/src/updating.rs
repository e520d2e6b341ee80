//! Updating an anchor: finding its topic again in the current text of its
//! file.

use vstd::prelude::*;
use vstd::string::StrSliceExecFns;
use crate::alignment::align::{views, Alignment, AlignmentCell, Alignments};
use crate::alignment::model::{
    alignable, alignments_in, greatest_score, implements, produced, score_matrix_of,
    traceback_matrix_of,
};
use crate::alignment::smith_waterman::align;
use crate::alignment::theorems::{identity_alignment, lemma_read_alignments, lemma_self_alignment};
use crate::scoring::{gap_penalty, score_func, standard_policy};
use crate::anchor::{context_of, holds_topic, Anchor, AnchorView, Context, ContextView};
use crate::errors::ErrorKind;

verus! {

/// Why an anchor could not be updated.
#[derive(Clone, Debug, Eq, PartialEq)]
pub enum UpdateError {
    /// No alignments could be found.
    NoAlignments,
    /// An alignment doesn't match the text.
    InvalidAlignment,
    /// The topic that an alignment points at reaches beyond the text.
    InvalidTopic,
    /// The file could not be read.
    Io(std::io::ErrorKind, String),
    /// The file's bytes are not text in the anchor's encoding.
    EncodingError(String),
}

/// `index`, an index into the text that the context was taken from, lies in
/// the topic.
pub open spec fn in_topic(index: int, c: ContextView) -> bool {
    c.offset <= index < c.offset + c.topic.len()
}

/// Where the first stored character lay in the text that the context was
/// taken from.
pub open spec fn anchor_offset(c: ContextView) -> int {
    c.offset - c.before.len()
}

/// The cell pairs a character of the stored topic with one of the current
/// text.
pub open spec fn maps_topic(cell: AlignmentCell, c: ContextView) -> bool {
    cell matches AlignmentCell::Both { left, .. } && in_topic(left + anchor_offset(c), c)
}

/// The index into the right sequence that a cell holds, 0 where it holds
/// none.
pub open spec fn right_of(cell: AlignmentCell) -> usize {
    match cell {
        AlignmentCell::Both { right, .. } => right,
        AlignmentCell::LeftGap { right } => right,
        AlignmentCell::RightGap { .. } => 0,
    }
}

/// The indices into the current text that the alignment pairs with the
/// stored topic, in the alignment's order.
pub open spec fn targets_of(alignment: Seq<AlignmentCell>, c: ContextView) -> Seq<usize> {
    alignment.filter(|cell: AlignmentCell| maps_topic(cell, c)).map_values(
        |cell: AlignmentCell| right_of(cell),
    )
}

/// The context that `alignment` gives the topic of `c` in `text`: the
/// topic starts at the first index paired with the stored topic and has as
/// many characters as there are such indices.
pub open spec fn relocated(c: ContextView, text: Seq<char>, alignment: Seq<AlignmentCell>) -> Result<
    ContextView,
    UpdateError,
> {
    let targets = targets_of(alignment, c);
    if targets.len() == 0 {
        Err(UpdateError::InvalidAlignment)
    } else if !holds_topic(text, targets[0] as nat, targets.len()) {
        Err(UpdateError::InvalidTopic)
    } else {
        Ok(context_of(text, targets[0] as nat, targets.len(), c.width))
    }
}

/// The anchor that `alignments` give for `text`: the first alignment
/// decides, and all but the context stays.
pub open spec fn updated(anchor: AnchorView, text: Seq<char>, alignments: Seq<Seq<AlignmentCell>>) -> Result<
    AnchorView,
    UpdateError,
> {
    if alignments.len() == 0 {
        Err(UpdateError::NoAlignments)
    } else {
        match relocated(anchor.context, text, alignments[0]) {
            Ok(context) => Ok(AnchorView { context, ..anchor }),
            Err(e) => Err(e),
        }
    }
}

/// `res` is the outcome `expected`.
pub open spec fn is_outcome(res: Result<Anchor, UpdateError>, expected: Result<AnchorView, UpdateError>) -> bool {
    match res {
        Ok(anchor) => expected == Ok::<AnchorView, UpdateError>(anchor@),
        Err(e) => expected == Err::<AnchorView, UpdateError>(e),
    }
}

/// Determines if an index is in the topic of an anchor.
pub fn index_in_topic(index: u64, anchor: &Anchor) -> (inside: bool)
    ensures
        inside == in_topic(index as int, anchor@.context),
{
    let context = anchor.context();
    let offset = context.offset();
    let topic_len = context.topic().as_str().unicode_len();
    index >= offset && index - offset < topic_len as u64
}

/// What one more cell adds to the targets of an alignment.
proof fn lemma_targets_push(alignment: Seq<AlignmentCell>, cell: AlignmentCell, c: ContextView)
    ensures
        targets_of(alignment.push(cell), c) == if maps_topic(cell, c) {
            targets_of(alignment, c).push(right_of(cell))
        } else {
            targets_of(alignment, c)
        },
{
    reveal(Seq::filter);
    assert(alignment.push(cell).drop_last() =~= alignment);
    let kept = alignment.filter(|cell: AlignmentCell| maps_topic(cell, c));
    if maps_topic(cell, c) {
        assert(kept.push(cell).map_values(|cell: AlignmentCell| right_of(cell)) =~= kept.map_values(
            |cell: AlignmentCell| right_of(cell),
        ).push(right_of(cell)));
    }
}

/// The indices into the current text that `alignment` pairs with the
/// anchor's topic.
fn topic_targets(alignment: &Alignment, anchor: &Anchor) -> (targets: Vec<usize>)
    ensures
        targets@ == targets_of(alignment@, anchor@.context),
{
    let context = anchor.context();
    let before_len = context.before().as_str().unicode_len();
    let anchor_offset = context.offset() - before_len as u64;
    let ghost c = anchor@.context;
    let mut targets: Vec<usize> = Vec::new();
    let mut k: usize = 0;
    proof {
        reveal(Seq::filter);
        assert(alignment@.take(0) =~= Seq::<AlignmentCell>::empty());
        assert(targets@ =~= targets_of(alignment@.take(0), c));
    }
    while k < alignment.len()
        invariant
            c == anchor@.context,
            c.wf(),
            anchor_offset == c.offset - c.before.len(),
            k <= alignment@.len(),
            targets@ == targets_of(alignment@.take(k as int), c),
        decreases alignment@.len() - k,
    {
        proof {
            lemma_targets_push(alignment@.take(k as int), alignment@[k as int], c);
            assert(alignment@.take(k + 1) =~= alignment@.take(k as int).push(alignment@[k as int]));
        }
        match alignment[k] {
            AlignmentCell::Both { left, right } => {
                // An index beyond 64 bits lies beyond every topic.
                let inside = match (left as u64).checked_add(anchor_offset) {
                    Some(index) => index_in_topic(index, anchor),
                    None => false,
                };
                if inside {
                    targets.push(right);
                }
            },
            _ => {},
        }
        k += 1;
    }
    assert(alignment@.take(alignment@.len() as int) =~= alignment@);
    targets
}

/// Updates an anchor from the alignments of its stored text with `text`,
/// the current text of its file.
///
/// The first alignment decides. The cells that pair a character of the
/// stored topic with one of `text` give the new topic: it starts at the
/// first such character of `text` and is as long as there are such cells.
/// The new context is taken from `text` with the old width.
pub fn relocate(anchor: &Anchor, text: &str, alignments: &Vec<Alignment>) -> (res: Result<
    Anchor,
    UpdateError,
>)
    ensures
        is_outcome(res, updated(anchor@, text@, views(alignments@))),
{
    if alignments.len() == 0 {
        return Err(UpdateError::NoAlignments);
    }
    assert(views(alignments@)[0] == alignments@[0]@);
    let source_indices = topic_targets(&alignments[0], anchor);
    if source_indices.len() == 0 {
        return Err(UpdateError::InvalidAlignment);
    }
    // Given the new topic offset and size, we can create a new context and
    // anchor.
    let new_topic_offset = source_indices[0];
    match Context::new(
        text,
        new_topic_offset as u64,
        source_indices.len() as u64,
        anchor.context().width(),
    ) {
        Ok(context) => Ok(anchor.with_context(context)),
        Err(_) => Err(UpdateError::InvalidTopic),
    }
}

/// The alignments of `a` with `b` under the standard policy.
pub open spec fn standard_alignments(a: Seq<char>, b: Seq<char>) -> Seq<Seq<AlignmentCell>> {
    alignments_in(
        score_matrix_of(a, b, standard_policy()),
        traceback_matrix_of(a, b, standard_policy()),
    )
}

/// Aligns `a` with `b` under the standard policy.
pub fn standard_align(a: &str, b: &str) -> (found: Result<Alignments, ErrorKind>)
    requires
        alignable(a@.len(), b@.len()),
    ensures
        produced(found) == standard_alignments(a@, b@),
        found matches Ok(best) ==> best.0 > 0 && best.0 == greatest_score(
            score_matrix_of(a@, b@, standard_policy()),
        ),
        found matches Err(e) ==> e == ErrorKind::NoAlignments,
{
    let found = align(a, b, &score_func, &gap_penalty);
    proof {
        assert(implements(&score_func, &gap_penalty, a@, b@, standard_policy()));
        lemma_read_alignments(
            found,
            score_matrix_of(a@, b@, standard_policy()),
            traceback_matrix_of(a@, b@, standard_policy()),
        );
    }
    found
}

/// Updates an anchor based on `text`, the current text of its file, with an
/// aligner of the caller's.
///
/// The aligner is handed the anchor's stored text and `text`. Whatever it
/// produces is read as `relocate` says.
pub fn update_text<A: Fn(&str, &str) -> Result<Alignments, ErrorKind>>(
    anchor: &Anchor,
    text: &str,
    align: &A,
) -> (res: Result<Anchor, UpdateError>)
    requires
        forall|stored: &str|
            stored@ == anchor@.context.full_text() ==> call_requires(*align, (stored, text)),
    ensures
        exists|stored: &str, found: Result<Alignments, ErrorKind>|
            stored@ == anchor@.context.full_text() && #[trigger] call_ensures(
                *align,
                (stored, text),
                found,
            ) && is_outcome(res, updated(anchor@, text@, produced(found))),
{
    let stored = anchor.context().full_text();
    let found = align(stored.as_str(), text);
    relocate_found(anchor, text, found)
}

/// Updates an anchor from what an aligner has produced for its stored
/// text and `text`. An aligner that failed has produced no alignment.
pub fn relocate_found(anchor: &Anchor, text: &str, found: Result<Alignments, ErrorKind>) -> (res:
    Result<Anchor, UpdateError>)
    ensures
        is_outcome(res, updated(anchor@, text@, produced(found))),
{
    match found {
        Ok((_, alignments)) => relocate(anchor, text, &alignments),
        Err(_) => Err(UpdateError::NoAlignments),
    }
}

/// What `encoding::decode` makes of `bytes` in the encoding that
/// `encoding::label::encoding_from_whatwg_label` finds for `label`: nothing
/// where it finds none, else the text, or the decoder's complaint.
pub uninterp spec fn decoded(label: Seq<char>, bytes: Seq<u8>) -> Option<Result<Seq<char>, Seq<char>>>;

/// `encoding::label::encoding_from_whatwg_label`, then `encoding::decode`
/// with `DecoderTrap::Strict`. Both depend on their arguments alone, so the
/// outcome is `decoded` of the label and the bytes.
#[verifier::external_body]
fn decode_strict(label: &str, bytes: &[u8]) -> (res: Option<Result<String, String>>)
    ensures
        match res {
            None => decoded(label@, bytes@) is None,
            Some(Ok(text)) => decoded(label@, bytes@) == Some(Ok::<Seq<char>, Seq<char>>(text@)),
            Some(Err(message)) => decoded(label@, bytes@) == Some(
                Err::<Seq<char>, Seq<char>>(message@),
            ),
        },
{
    match encoding::label::encoding_from_whatwg_label(label) {
        None => None,
        Some(encoding) => Some(
            encoding::decode(bytes, encoding::DecoderTrap::Strict, encoding).0.map_err(
                |e| e.into_owned(),
            ),
        ),
    }
}

/// The outcome of `decode_text` that goes with an outcome of the decoder.
pub open spec fn is_decoded(res: Result<String, UpdateError>, outcome: Option<Result<Seq<char>, Seq<char>>>) -> bool {
    match outcome {
        None => res matches Err(UpdateError::EncodingError(message)) && message@
            == "Invalid encoding name."@,
        Some(Ok(text)) => res matches Ok(decoded_text) && decoded_text@ == text,
        Some(Err(complaint)) => res matches Err(UpdateError::EncodingError(message)) && message@
            == complaint,
    }
}

/// Decodes the bytes of a file in the encoding that `label` names.
///
/// An unknown label and bytes that are not text in the encoding are both
/// encoding errors.
pub fn decode_text(label: &str, bytes: &[u8]) -> (res: Result<String, UpdateError>)
    ensures
        is_decoded(res, decoded(label@, bytes@)),
{
    match decode_strict(label, bytes) {
        None => Err(UpdateError::EncodingError("Invalid encoding name.".to_owned())),
        Some(Ok(text)) => Ok(text),
        Some(Err(message)) => Err(UpdateError::EncodingError(message)),
    }
}

/// Updates an anchor based on the bytes of its file, with an aligner of the
/// caller's.
///
/// The bytes are decoded in the anchor's encoding, and the text is handed
/// to `update_text`.
pub fn update_bytes<A: Fn(&str, &str) -> Result<Alignments, ErrorKind>>(
    anchor: &Anchor,
    bytes: &[u8],
    align: &A,
) -> (res: Result<Anchor, UpdateError>)
    requires
        forall|stored: &str, text: &str|
            stored@ == anchor@.context.full_text() ==> call_requires(*align, (stored, text)),
    ensures
        match decoded(anchor@.encoding, bytes@) {
            Some(Ok(text)) => exists|stored: &str, current: &str, found: Result<Alignments, ErrorKind>|
                stored@ == anchor@.context.full_text() && current@ == text && #[trigger] call_ensures(
                    *align,
                    (stored, current),
                    found,
                ) && is_outcome(res, updated(anchor@, text, produced(found))),
            Some(Err(complaint)) => res matches Err(UpdateError::EncodingError(message)) && message@
                == complaint,
            None => res matches Err(UpdateError::EncodingError(message)) && message@
                == "Invalid encoding name."@,
        },
{
    match decode_text(anchor.encoding().as_str(), bytes) {
        Ok(text) => update_text(anchor, text.as_str(), align),
        Err(e) => Err(e),
    }
}

/// Updates an anchor based on `text`, the current text of its file.
///
/// The stored text is aligned with `text` under the standard policy, and
/// the first alignment decides where the topic is now.
pub fn update(anchor: &Anchor, text: &str) -> (res: Result<Anchor, UpdateError>)
    requires
        alignable(anchor@.context.full_text().len(), text@.len()),
    ensures
        is_outcome(
            res,
            updated(anchor@, text@, standard_alignments(anchor@.context.full_text(), text@)),
        ),
{
    let stored = anchor.context().full_text();
    let found = standard_align(stored.as_str(), text);
    relocate_found(anchor, text, found)
}

/// The targets of the first `m` cells of the alignment that pairs each
/// stored character with itself: the indices of the stored topic, as far as
/// the `m` cells reach.
proof fn lemma_targets_of_identity(c: ContextView, m: nat)
    requires
        c.wf(),
        m <= c.full_text().len() <= usize::MAX,
    ensures
        targets_of(identity_alignment(m), c) == Seq::new(
            if m <= c.before.len() {
                0
            } else if m <= c.before.len() + c.topic.len() {
                (m - c.before.len()) as nat
            } else {
                c.topic.len()
            },
            |x: int| (c.before.len() + x) as usize,
        ),
    decreases m,
{
    let reached = if m <= c.before.len() {
        0
    } else if m <= c.before.len() + c.topic.len() {
        (m - c.before.len()) as nat
    } else {
        c.topic.len()
    };
    let expected = Seq::new(reached, |x: int| (c.before.len() + x) as usize);
    if m == 0 {
        reveal(Seq::filter);
        assert(identity_alignment(0) =~= Seq::<AlignmentCell>::empty());
        assert(targets_of(identity_alignment(0), c) =~= expected);
    } else {
        let fewer = (m - 1) as nat;
        let cell = AlignmentCell::Both { left: fewer as usize, right: fewer as usize };
        lemma_targets_of_identity(c, fewer);
        assert(identity_alignment(m) =~= identity_alignment(fewer).push(cell));
        lemma_targets_push(identity_alignment(fewer), cell, c);
        assert(maps_topic(cell, c) <==> c.before.len() <= fewer < c.before.len() + c.topic.len());
        assert(targets_of(identity_alignment(m), c) =~= expected);
    }
}

/// Updating an anchor from a text that is exactly its stored text, where
/// that text is the whole of the file so that the topic's offset is the
/// length of what lies before it, gives the anchor again.
pub proof fn lemma_update_of_unchanged_text(anchor: AnchorView)
    requires
        anchor.context.wf(),
        anchor.context.offset == anchor.context.before.len(),
        anchor.context.full_text().len() <= usize::MAX,
    ensures
        updated(
            anchor,
            anchor.context.full_text(),
            standard_alignments(anchor.context.full_text(), anchor.context.full_text()),
        ) == Ok::<AnchorView, UpdateError>(anchor),
{
    let c = anchor.context;
    let text = c.full_text();
    lemma_self_alignment(text);
    let alignment = identity_alignment(text.len());
    assert(standard_alignments(text, text)[0] == alignment);
    lemma_targets_of_identity(c, text.len());
    let targets = targets_of(alignment, c);
    assert(targets.len() == c.topic.len());
    assert(targets[0] == c.before.len());
    let moved = context_of(text, targets[0] as nat, targets.len(), c.width);
    assert(moved.before =~= c.before);
    assert(moved.topic =~= c.topic);
    assert(moved.after =~= c.after);
    assert(moved == c);
}

} // verus!
