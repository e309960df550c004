//! Applying a unified diff to a text, through the `patch_apply` crate.

use vstd::prelude::*;
use patch_apply::Patch as UnifiedDiff;
use patch_apply::ParseError;
use crate::diff_text::{diff_text_ok, diff_text_accepted};

verus! {

#[verifier::external_type_specification]
#[verifier::external_body]
pub struct ExUnifiedDiff<'a>(UnifiedDiff<'a>);

#[verifier::external_type_specification]
#[verifier::external_body]
pub struct ExParseError<'a>(ParseError<'a>);

/// Whether `patch_apply` parses `text` as a single-file unified diff.
pub uninterp spec fn diff_parses(text: Seq<char>) -> bool;

/// The old-file line ranges (start line, line count) of the hunks that
/// `patch_apply` parses out of `text`, in order.
pub uninterp spec fn diff_hunk_ranges(text: Seq<char>) -> Seq<(u64, u64)>;

/// The text that `patch_apply::apply` makes of `input` with the diff parsed out of `diff`.
pub uninterp spec fn diff_applied(input: Seq<char>, diff: Seq<char>) -> Seq<char>;

/// A diff parsed by `patch_apply`, with the text it was parsed from.
pub struct ParsedDiff<'a> {
    text: &'a str,
    diff: UnifiedDiff<'a>,
}

impl<'a> View for ParsedDiff<'a> {
    type V = Seq<char>;

    /// The text the diff was parsed from.
    closed spec fn view(&self) -> Seq<char> {
        self.text@
    }
}

/// `patch_apply::Patch::from_single`: parses `text` as a unified diff of one
/// file; whether it succeeds depends on the text alone. It panics on a hunk
/// range number too large for `u64` and on input left over after the hunks;
/// the precondition leaves such text out (see `diff_text`).
#[verifier::external_body]
fn parse_diff<'a>(text: &'a str) -> (r: Result<ParsedDiff<'a>, ParseError<'a>>)
    requires
        diff_text_ok(text@),
    ensures
        r is Ok <==> diff_parses(text@),
        r matches Ok(d) ==> d@ == text@,
{
    match UnifiedDiff::from_single(text) {
        Ok(diff) => Ok(ParsedDiff { text, diff }),
        Err(e) => Err(e),
    }
}

/// The `old_range` (start, count) of each hunk of a parsed diff, in order
/// (the `hunks` field of `patch_apply::Patch`).
#[verifier::external_body]
fn hunk_ranges(d: &ParsedDiff) -> (r: Vec<(u64, u64)>)
    ensures
        r@ == diff_hunk_ranges(d@),
{
    d.diff.hunks.iter().map(|h| (h.old_range.start, h.old_range.count)).collect()
}

/// `patch_apply::apply`: the input with the diff's hunks applied. The
/// precondition leaves out the inputs on which it indexes past the input's
/// lines or overflows its line counter, where it panics.
#[verifier::external_body]
fn apply_parsed(input: String, d: ParsedDiff) -> (r: String)
    requires
        applies_from(diff_hunk_ranges(d@), line_count(input@), 0),
    ensures
        r@ == diff_applied(input@, d@),
{
    patch_apply::apply(input, d.diff)
}

/// The number of lines `str::lines` yields: one per line feed, and one more
/// for a last line without one.
pub open spec fn line_count(s: Seq<char>) -> nat {
    s.filter(|c: char| c == '\n').len() + if s.len() > 0 && s.last() != '\n' {
        1nat
    } else {
        0nat
    }
}

/// Whether applying hunks with these old-file ranges, to a text of `n` lines,
/// from line counter `old` on, stays within the lines and the counter's range.
pub open spec fn applies_from(ranges: Seq<(u64, u64)>, n: nat, old: nat) -> bool
    decreases ranges.len(),
{
    if ranges.len() == 0 {
        true
    } else {
        let start = ranges[0].0 as nat;
        let count = ranges[0].1 as nat;
        let copies = n > 0 && old + 1 < start;
        let after = if copies { (start - 1) as nat } else { old };
        &&& n > 0 ==> old + 1 <= u64::MAX
        &&& copies ==> start - 1 <= n
        &&& after + count <= u64::MAX
        &&& applies_from(ranges.skip(1), n, after + count)
    }
}

/// Why a diff could not be applied.
#[derive(Debug)]
pub enum DiffError {
    /// The diff text is not of the accepted shape (see `diff_text`), or
    /// `patch_apply` does not parse it as a unified diff of one file.
    Unparsable,
    /// A hunk starts past the end of the text (or the line counter would overflow).
    OutOfRange,
}

/// The number of lines of `s`, as `str::lines` counts them.
fn count_lines(s: &str) -> (r: usize)
    ensures
        r == line_count(s@),
{
    let chars = crate::text::chars_of(s);
    let ghost pred = |c: char| c == '\n';
    let mut feeds: usize = 0;
    let mut i: usize = 0;
    assert(chars@.take(0).filter(pred) =~= Seq::<char>::empty()) by {
        reveal(Seq::filter);
    }
    while i < chars.len()
        invariant
            i <= chars@.len(),
            pred == (|c: char| c == '\n'),
            feeds == chars@.take(i as int).filter(pred).len(),
            feeds <= i,
        decreases chars@.len() - i,
    {
        assert(chars@.take(i + 1) =~= chars@.take(i as int).push(chars@[i as int]));
        proof {
            chars@.take(i as int).lemma_filter_push(chars@[i as int], pred);
        }
        if chars[i] == '\n' {
            feeds = feeds + 1;
        }
        i = i + 1;
    }
    assert(chars@.take(chars@.len() as int) =~= chars@);
    if chars.len() > 0 && chars[chars.len() - 1] != '\n' {
        assert(feeds < chars@.len()) by {
            let t = chars@.drop_last();
            assert(chars@ =~= t.push(chars@.last()));
            t.lemma_filter_push(chars@.last(), pred);
            crate::text::lemma_filter_len_le(t, pred);
        }
        feeds + 1
    } else {
        feeds
    }
}

/// Whether applying hunks with these old-file ranges to a text of `n` lines
/// stays in range.
fn check_ranges(ranges: &Vec<(u64, u64)>, n: usize) -> (r: bool)
    ensures
        r == applies_from(ranges@, n as nat, 0),
{
    let mut old: u64 = 0;
    let mut i: usize = 0;
    assert(ranges@.skip(0) =~= ranges@);
    while i < ranges.len()
        invariant
            i <= ranges@.len(),
            applies_from(ranges@.skip(i as int), n as nat, old as nat) == applies_from(ranges@, n as nat, 0),
        decreases ranges@.len() - i,
    {
        let (start, count) = ranges[i];
        let ghost rest = ranges@.skip(i as int);
        assert(rest[0] == ranges@[i as int]);
        assert(rest.skip(1) =~= ranges@.skip(i + 1));
        if n > 0 && old == u64::MAX {
            return false;
        }
        let copies = n > 0 && old + 1 < start;
        if copies && (start - 1) as u128 > n as u128 {
            return false;
        }
        let after = if copies { start - 1 } else { old };
        if count > u64::MAX - after {
            return false;
        }
        old = after + count;
        i = i + 1;
    }
    true
}

/// `input` with the unified diff in `diff_text` applied by `patch_apply`; an
/// error where the text is not of the accepted shape or no diff, or where a
/// hunk starts past the input's lines.
pub fn apply_diff(input: String, diff_text: &str) -> (r: Result<String, DiffError>)
    ensures
        !diff_text_ok(diff_text@) ==> r matches Err(DiffError::Unparsable),
        diff_text_ok(diff_text@) && !diff_parses(diff_text@) ==> r matches Err(DiffError::Unparsable),
        diff_text_ok(diff_text@) && diff_parses(diff_text@) && !applies_from(
            diff_hunk_ranges(diff_text@),
            line_count(input@),
            0,
        ) ==> r matches Err(DiffError::OutOfRange),
        diff_text_ok(diff_text@) && diff_parses(diff_text@) && applies_from(
            diff_hunk_ranges(diff_text@),
            line_count(input@),
            0,
        ) ==> (r matches Ok(s) && s@ == diff_applied(input@, diff_text@)),
{
    if !diff_text_accepted(diff_text) {
        return Err(DiffError::Unparsable);
    }
    let d = match parse_diff(diff_text) {
        Ok(d) => d,
        Err(_) => {
            return Err(DiffError::Unparsable);
        },
    };
    let ranges = hunk_ranges(&d);
    let n = count_lines(input.as_str());
    if !check_ranges(&ranges, n) {
        return Err(DiffError::OutOfRange);
    }
    Ok(apply_parsed(input, d))
}

} // verus!
