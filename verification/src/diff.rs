//! Telling whether the text around an anchor has changed, line by line.

use vstd::prelude::*;
use vstd::string::StrSliceExecFns;
use vstd::string::StringExecFns;
use crate::anchor::{context_of, holds_topic, Anchor, Context};
use crate::errors::ErrorKind;

verus! {

/// One step of a comparison of two texts by lines.
#[derive(Clone, Debug, PartialEq, Eq)]
pub enum LineDiff {
    /// A line of the left text alone.
    Left(String),
    /// A line that both texts have, as it stands in each.
    Both(String, String),
    /// A line of the right text alone.
    Right(String),
}

/// One step of a comparison of two texts by lines, as mathematics.
pub enum LineDiffView {
    Left(Seq<char>),
    Both(Seq<char>, Seq<char>),
    Right(Seq<char>),
}

impl View for LineDiff {
    type V = LineDiffView;

    open spec fn view(&self) -> LineDiffView {
        match self {
            LineDiff::Left(l) => LineDiffView::Left(l@),
            LineDiff::Both(l, r) => LineDiffView::Both(l@, r@),
            LineDiff::Right(r) => LineDiffView::Right(r@),
        }
    }
}

/// The steps of each of `diffs`, as mathematics.
pub open spec fn diff_views(diffs: Seq<LineDiff>) -> Seq<LineDiffView> {
    diffs.map_values(|d: LineDiff| d@)
}

/// What `diff::lines` makes of two texts.
pub uninterp spec fn line_diffs(left: Seq<char>, right: Seq<char>) -> Seq<LineDiffView>;

/// `diff::lines`: the comparison of two texts by lines. It depends on the
/// texts alone, so its outcome is `line_diffs` of the two.
#[verifier::external_body]
fn diff_lines(left: &str, right: &str) -> (diffs: Vec<LineDiff>)
    ensures
        diff_views(diffs@) == line_diffs(left@, right@),
{
    diff::lines(left, right).into_iter().map(
        |d| match d {
            diff::Result::Left(l) => LineDiff::Left(l.to_owned()),
            diff::Result::Both(l, r) => LineDiff::Both(l.to_owned(), r.to_owned()),
            diff::Result::Right(r) => LineDiff::Right(r.to_owned()),
        },
    ).collect()
}

/// The line that shows a step: the text of the step's line behind `-` for a
/// line of the left text alone, a blank for a line of both, `+` for a line
/// of the right text alone.
pub open spec fn shown(d: LineDiffView) -> Seq<char> {
    match d {
        LineDiffView::Left(l) => seq!['-'] + l,
        LineDiffView::Both(l, _) => seq![' '] + l,
        LineDiffView::Right(r) => seq!['+'] + r,
    }
}

/// Some step of `diffs` is a line that only one of the texts has.
pub open spec fn any_change(diffs: Seq<LineDiffView>) -> bool {
    exists|i: int| 0 <= i < diffs.len() && !(#[trigger] diffs[i] is Both)
}

/// `res` reports `diffs`: whether anything has changed, and a line for
/// each step.
pub open spec fn reports(res: (bool, Vec<String>), diffs: Seq<LineDiffView>) -> bool {
    &&& res.0 == any_change(diffs)
    &&& res.1@.len() == diffs.len()
    &&& forall|i: int| 0 <= i < diffs.len() ==> (#[trigger] res.1@[i])@ == shown(diffs[i])
}

/// Reports a comparison: whether anything has changed, and a line for each
/// step.
pub fn report(diffs: &Vec<LineDiff>) -> (res: (bool, Vec<String>))
    ensures
        reports(res, diff_views(diffs@)),
{
    let ghost views = diff_views(diffs@);
    let mut diff_strings: Vec<String> = Vec::new();
    let mut changed = false;
    let mut k: usize = 0;
    while k < diffs.len()
        invariant
            views == diff_views(diffs@),
            k <= diffs@.len(),
            changed == any_change(views.take(k as int)),
            diff_strings@.len() == k,
            forall|i: int| 0 <= i < k ==> (#[trigger] diff_strings@[i])@ == shown(views[i]),
        decreases diffs@.len() - k,
    {
        proof {
            reveal_strlit("-");
            reveal_strlit(" ");
            reveal_strlit("+");
            assert(views[k as int] == diffs@[k as int]@);
        }
        let ghost before = changed;
        let diff_text = match &diffs[k] {
            LineDiff::Left(l) => {
                changed = true;
                let mut text = "-".to_owned();
                text.append(l.as_str());
                text
            },
            LineDiff::Both(l, _) => {
                let mut text = " ".to_owned();
                text.append(l.as_str());
                text
            },
            LineDiff::Right(r) => {
                changed = true;
                let mut text = "+".to_owned();
                text.append(r.as_str());
                text
            },
        };
        proof {
            assert(diff_text@ =~= shown(views[k as int]));
            let shorter = views.take(k as int);
            let longer = views.take(k + 1);
            assert(longer[k as int] == views[k as int]);
            if any_change(shorter) {
                let i = choose|i: int| 0 <= i < shorter.len() && !(#[trigger] shorter[i] is Both);
                assert(longer[i] == shorter[i]);
            }
            if any_change(longer) && views[k as int] is Both {
                let i = choose|i: int| 0 <= i < longer.len() && !(#[trigger] longer[i] is Both);
                assert(shorter[i] == longer[i]);
            }
        }
        diff_strings.push(diff_text);
        k += 1;
    }
    assert(views.take(diffs@.len() as int) =~= views);
    (changed, diff_strings)
}

/// Compares two texts by lines and reports the comparison.
pub fn diff_texts(left: &str, right: &str) -> (res: (bool, Vec<String>))
    ensures
        reports(res, line_diffs(left@, right@)),
{
    let diffs = diff_lines(left, right);
    report(&diffs)
}

/// Compares the text that an anchor has stored with the text that stands
/// at the same place in `text`, the current text of its file.
///
/// Where `text` is too short to hold the topic at its old place, the topic
/// is invalid.
pub fn get_anchor_diff(anchor: &Anchor, text: &str) -> (res: Result<(bool, Vec<String>), ErrorKind>)
    ensures
        ({
            let c = anchor@.context;
            if holds_topic(text@, c.offset, c.topic.len()) {
                res matches Ok(report) && reports(
                    report,
                    line_diffs(
                        c.full_text(),
                        context_of(text@, c.offset, c.topic.len(), c.width).full_text(),
                    ),
                )
            } else {
                res == Err::<(bool, Vec<String>), ErrorKind>(ErrorKind::InvalidTopic)
            }
        }),
{
    let context = anchor.context();
    let topic_len = context.topic().as_str().unicode_len();
    match Context::new(text, context.offset(), topic_len as u64, context.width()) {
        Ok(new_context) => {
            let old_text = context.full_text();
            let new_text = new_context.full_text();
            Ok(diff_texts(old_text.as_str(), new_text.as_str()))
        },
        Err(e) => Err(e),
    }
}

} // verus!
