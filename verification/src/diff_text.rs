//! The shape of diff text handed to `patch_apply`: every hunk header well
//! formed with numbers that fit in a `u64`, every line after the first hunk
//! header a hunk line, a hunk header or a trailing empty line, every line
//! ended by a line feed or a carriage return and a line feed, and no other
//! carriage return in a line from the first hunk header on. On text of this
//! shape the crate's parser either fails or consumes all of it; on other text
//! it can panic (a number too large for `u64`, or input left over after the
//! hunks).

use vstd::prelude::*;
use crate::text::{chars_of, matches_at};

verus! {

/// Whether `c` is an ASCII digit.
pub open spec fn is_digit(c: char) -> bool {
    '0' <= c && c <= '9'
}

/// The number of consecutive digits of `l` from index `i` on.
pub open spec fn digit_run(l: Seq<char>, i: int) -> nat
    decreases l.len() - i,
{
    if 0 <= i < l.len() && is_digit(l[i]) {
        1 + digit_run(l, i + 1)
    } else {
        0
    }
}

/// Whether `p` occurs in `l` at index `i`.
pub open spec fn occurs_at(l: Seq<char>, i: int, p: Seq<char>) -> bool {
    0 <= i && i + p.len() <= l.len() && l.subrange(i, i + p.len()) == p
}

/// The numeric value of the digits `l[i..i + n]`.
pub open spec fn digits_value(l: Seq<char>, i: int, n: nat) -> nat
    decreases n,
{
    if n == 0 {
        0
    } else {
        digits_value(l, i, (n - 1) as nat) * 10 + digit_value(l[i + n - 1])
    }
}

/// The value of a digit.
pub open spec fn digit_value(c: char) -> nat {
    if is_digit(c) {
        (c as u32 - '0' as u32) as nat
    } else {
        0
    }
}

/// Whether a run of `n` digits from `i` on is a number that fits in a `u64`.
pub open spec fn number_ok(l: Seq<char>, i: int, n: nat) -> bool {
    n >= 1 && digits_value(l, i, n) <= u64::MAX
}

/// Where a line range (`start` or `start,count`, each a run of digits whose
/// value fits in a `u64`) that begins at `i` ends.
pub open spec fn range_end(l: Seq<char>, i: int) -> Option<int> {
    let n = digit_run(l, i);
    if !number_ok(l, i, n) {
        None
    } else if i + n < l.len() && l[i + n] == ',' {
        let m = digit_run(l, i + n + 1);
        if !number_ok(l, i + n + 1, m) {
            None
        } else {
            Some(i + n + 1 + m)
        }
    } else {
        Some(i + n)
    }
}

/// Whether `l` is a hunk header: `@@ -`, a range, ` +`, a range, ` @@`, then anything.
pub open spec fn hunk_header(l: Seq<char>) -> bool {
    occurs_at(l, 0, "@@ -"@) && match range_end(l, 4) {
        None => false,
        Some(a) => occurs_at(l, a, " +"@) && match range_end(l, a + 2) {
            None => false,
            Some(b) => occurs_at(l, b, " @@"@),
        },
    }
}

/// Whether `l` is a line of a hunk: an added line (not `+++ `), a removed line
/// (not `--- `), a context line, or the no-newline marker.
pub open spec fn hunk_body_line(l: Seq<char>) -> bool {
    l.len() >= 1 && ((l[0] == '+' && !occurs_at(l, 1, "++ "@)) || (l[0] == '-' && !occurs_at(
        l,
        1,
        "-- "@,
    )) || l[0] == ' ' || occurs_at(l, 0, "\\ No newline at end of file"@))
}

/// The index of the first line feed at or after `i`, or the length of `s`.
pub open spec fn newline_from(s: Seq<char>, i: int) -> int
    decreases s.len() - i,
{
    if i < 0 || i >= s.len() {
        s.len() as int
    } else if s[i] == '\n' {
        i
    } else {
        newline_from(s, i + 1)
    }
}

/// Before the first hunk header.
pub open spec fn before_hunks() -> int {
    0
}

/// Right after a hunk header: a hunk line must follow.
pub open spec fn after_header() -> int {
    1
}

/// Inside a hunk.
pub open spec fn in_hunk() -> int {
    2
}

/// After the hunks: only empty lines may follow.
pub open spec fn trailing() -> int {
    3
}

/// A line without its final carriage return, if it ends with one.
pub open spec fn line_content(line: Seq<char>) -> Seq<char> {
    if line.len() > 0 && line.last() == '\r' {
        line.drop_last()
    } else {
        line
    }
}

/// Whether `c` holds no carriage return.
pub open spec fn no_cr(c: Seq<char>) -> bool {
    forall|i: int| 0 <= i < c.len() ==> c[i] != '\r'
}

/// Whether the lines of `s`, read in the given state, have the accepted shape.
/// A line ends at a line feed; a carriage return right before it belongs to
/// the line ending.
pub open spec fn lines_ok(s: Seq<char>, state: int) -> bool
    decreases s.len(),
{
    if s.len() == 0 {
        state != after_header()
    } else {
        let k = newline_from(s, 0);
        if k < 0 || k >= s.len() {
            false
        } else {
            let c = line_content(s.take(k));
            let rest = s.skip(k + 1);
            if state == before_hunks() {
                if occurs_at(c, 0, "@@"@) {
                    no_cr(c) && hunk_header(c) && lines_ok(rest, after_header())
                } else {
                    lines_ok(rest, before_hunks())
                }
            } else if state == after_header() {
                no_cr(c) && hunk_body_line(c) && lines_ok(rest, in_hunk())
            } else if state == in_hunk() {
                if !no_cr(c) {
                    false
                } else if hunk_header(c) {
                    lines_ok(rest, after_header())
                } else if hunk_body_line(c) {
                    lines_ok(rest, in_hunk())
                } else if c.len() == 0 {
                    lines_ok(rest, trailing())
                } else {
                    false
                }
            } else {
                c.len() == 0 && lines_ok(rest, trailing())
            }
        }
    }
}

/// Whether `s` is diff text of the accepted shape.
pub open spec fn diff_text_ok(s: Seq<char>) -> bool {
    lines_ok(s, before_hunks())
}

/// The lines of `ls`, each followed by a line feed.
pub open spec fn unlines(ls: Seq<Seq<char>>) -> Seq<char>
    decreases ls.len(),
{
    if ls.len() == 0 {
        seq![]
    } else {
        ls[0] + seq!['\n'] + unlines(ls.skip(1))
    }
}

/// Whether `l` holds neither a line feed nor a carriage return.
pub open spec fn single_line(l: Seq<char>) -> bool {
    forall|i: int| 0 <= i < l.len() ==> l[i] != '\n' && l[i] != '\r'
}

/// Whether `d` is written in decimal digits alone and its value fits in a `u64`.
pub open spec fn u64_numeral(d: Seq<char>) -> bool {
    &&& d.len() >= 1
    &&& forall|i: int| 0 <= i < d.len() ==> is_digit(#[trigger] d[i])
    &&& digits_value(d, 0, d.len()) <= u64::MAX
}

/// Whether `l` is a hunk line as diff tools write them: a context line (a
/// space, then anything), an added line (`+`, but not `+++ `), a removed
/// line (`-`, but not `--- `) or the no-newline marker, blank lines included.
pub open spec fn written_hunk_line(l: Seq<char>) -> bool {
    ||| occurs_at(l, 0, " "@)
    ||| occurs_at(l, 0, "+"@) && !occurs_at(l, 0, "+++ "@)
    ||| occurs_at(l, 0, "-"@) && !occurs_at(l, 0, "--- "@)
    ||| occurs_at(l, 0, "\\ No newline at end of file"@)
}

/// The index of the first line feed at or after `i` is `k` where none stands
/// from `i` to `k` and one stands at `k`.
proof fn lemma_newline_at(s: Seq<char>, i: int, k: int)
    requires
        0 <= i <= k < s.len(),
        s[k] == '\n',
        forall|j: int| i <= j < k ==> s[j] != '\n',
    ensures
        newline_from(s, i) == k,
    decreases k - i,
{
    if i < k {
        lemma_newline_at(s, i + 1, k);
    }
}

/// The first line of `unlines(ls)`, and what follows it.
proof fn lemma_unlines_first(ls: Seq<Seq<char>>)
    requires
        ls.len() >= 1,
        forall|j: int| 0 <= j < ls[0].len() ==> ls[0][j] != '\n',
    ensures
        unlines(ls).len() > ls[0].len(),
        newline_from(unlines(ls), 0) == ls[0].len(),
        unlines(ls).take(ls[0].len() as int) == ls[0],
        unlines(ls).skip(ls[0].len() as int + 1) == unlines(ls.skip(1)),
{
    let s = unlines(ls);
    let n: int = ls[0].len() as int;
    assert(s[n] == '\n');
    assert forall|j: int| 0 <= j < n implies s[j] != '\n' by {
        assert(s[j] == ls[0][j]);
    }
    lemma_newline_at(s, 0, n);
    assert(s.take(n) =~= ls[0]);
    assert(s.skip(n + 1) =~= unlines(ls.skip(1)));
}

/// A run of digits from `i` that ends at `e` has length `e - i`.
proof fn lemma_digit_run_to(l: Seq<char>, i: int, e: int)
    requires
        0 <= i <= e <= l.len(),
        forall|j: int| i <= j < e ==> is_digit(#[trigger] l[j]),
        e == l.len() || !is_digit(l[e]),
    ensures
        digit_run(l, i) == e - i,
    decreases e - i,
{
    if i < e {
        lemma_digit_run_to(l, i + 1, e);
    }
}

/// The value of digits depends on those digits alone.
proof fn lemma_digits_value_of_copy(l: Seq<char>, i: int, d: Seq<char>, n: nat)
    requires
        0 <= i,
        n <= d.len(),
        i + d.len() <= l.len(),
        l.subrange(i, i + d.len()) == d,
    ensures
        digits_value(l, i, n) == digits_value(d, 0, n),
    decreases n,
{
    if n > 0 {
        lemma_digits_value_of_copy(l, i, d, (n - 1) as nat);
        assert(l[i + n - 1] == l.subrange(i, i + d.len())[n - 1]);
    }
}

/// A numeral standing at `i` of `l`, followed by a character that is not a digit, is a range number there.
proof fn lemma_numeral_at(l: Seq<char>, i: int, d: Seq<char>)
    requires
        0 <= i,
        i + d.len() < l.len(),
        l.subrange(i, i + d.len()) == d,
        u64_numeral(d),
        !is_digit(l[i + d.len()]),
    ensures
        digit_run(l, i) == d.len(),
        number_ok(l, i, d.len()),
{
    assert forall|j: int| i <= j < i + d.len() implies is_digit(#[trigger] l[j]) by {
        assert(l[j] == d[j - i]);
    }
    lemma_digit_run_to(l, i, i + d.len());
    lemma_digits_value_of_copy(l, i, d, d.len());
}

/// A hunk header with numbers that fit in a `u64` and any hint after it.
proof fn lemma_written_hunk_header(os: Seq<char>, oc: Seq<char>, ns: Seq<char>, nc: Seq<char>, hint: Seq<char>)
    requires
        u64_numeral(os),
        u64_numeral(oc),
        u64_numeral(ns),
        u64_numeral(nc),
        single_line(hint),
    ensures
        hunk_header("@@ -"@ + os + ","@ + oc + " +"@ + ns + ","@ + nc + " @@"@ + hint),
        single_line("@@ -"@ + os + ","@ + oc + " +"@ + ns + ","@ + nc + " @@"@ + hint),
        occurs_at("@@ -"@ + os + ","@ + oc + " +"@ + ns + ","@ + nc + " @@"@ + hint, 0, "@@"@),
{
    reveal_strlit("@@");
    reveal_strlit("@@ -");
    reveal_strlit(",");
    reveal_strlit(" +");
    reveal_strlit(" @@");
    let l = "@@ -"@ + os + ","@ + oc + " +"@ + ns + ","@ + nc + " @@"@ + hint;
    let a0: int = 4 + os.len() as int;
    let a: int = a0 + 1 + oc.len();
    let b0: int = a + 2 + ns.len();
    let b: int = b0 + 1 + nc.len();
    assert(l.subrange(0, 4) =~= "@@ -"@);
    assert(l.subrange(4, a0) =~= os);
    assert(l[a0] == ',');
    lemma_numeral_at(l, 4, os);
    assert(l.subrange(a0 + 1, a) =~= oc);
    assert(l[a] == ' ');
    lemma_numeral_at(l, a0 + 1, oc);
    assert(range_end(l, 4) == Some(a));
    assert(l.subrange(a, a + 2) =~= " +"@);
    assert(l.subrange(a + 2, b0) =~= ns);
    assert(l[b0] == ',');
    lemma_numeral_at(l, a + 2, ns);
    assert(l.subrange(b0 + 1, b) =~= nc);
    assert(l[b] == ' ');
    lemma_numeral_at(l, b0 + 1, nc);
    assert(range_end(l, a + 2) == Some(b));
    assert(l.subrange(b, b + 3) =~= " @@"@);
    assert(l.subrange(0, 2) =~= "@@"@);
    assert forall|j: int| 0 <= j < l.len() implies l[j] != '\n' && l[j] != '\r' by {
        if j >= b + 3 {
            assert(l[j] == hint[j - b - 3]);
        } else if 4 <= j < a0 {
            assert(l[j] == os[j - 4]);
            assert(is_digit(os[j - 4]));
        } else if a0 + 1 <= j < a {
            assert(l[j] == oc[j - a0 - 1]);
            assert(is_digit(oc[j - a0 - 1]));
        } else if a + 2 <= j < b0 {
            assert(l[j] == ns[j - a - 2]);
            assert(is_digit(ns[j - a - 2]));
        } else if b0 + 1 <= j < b {
            assert(l[j] == nc[j - b0 - 1]);
            assert(is_digit(nc[j - b0 - 1]));
        }
    }
}

/// A `---` or `+++` line with a name on one line is no hunk header line.
proof fn lemma_name_line(tag: Seq<char>, name: Seq<char>)
    requires
        tag == "--- "@ || tag == "+++ "@,
        single_line(name),
    ensures
        single_line(tag + name),
        !occurs_at(tag + name, 0, "@@"@),
{
    reveal_strlit("--- ");
    reveal_strlit("+++ ");
    reveal_strlit("@@");
    let l = tag + name;
    assert forall|j: int| 0 <= j < l.len() implies l[j] != '\n' && l[j] != '\r' by {
        if j >= 4 {
            assert(l[j] == name[j - 4]);
        }
    }
    if occurs_at(l, 0, "@@"@) {
        assert(l[0] == l.subrange(0, 2)[0]);
    }
}

/// A written hunk line is taken as a hunk line, and not as a hunk header.
proof fn lemma_written_hunk_line(l: Seq<char>)
    requires
        written_hunk_line(l),
    ensures
        hunk_body_line(l),
        !hunk_header(l),
{
    reveal_strlit(" ");
    reveal_strlit("+");
    reveal_strlit("-");
    reveal_strlit("+++ ");
    reveal_strlit("--- ");
    reveal_strlit("++ ");
    reveal_strlit("-- ");
    reveal_strlit("@@ -");
    reveal_strlit("\\ No newline at end of file");
    assert(l.len() >= 1);
    assert(l[0] == l.subrange(0, 1)[0]);
    if occurs_at(l, 0, "\\ No newline at end of file"@) {
        assert(l[0] == l.subrange(0, 27)[0]);
    }
    if occurs_at(l, 0, "@@ -"@) {
        assert(l[0] == l.subrange(0, 4)[0]);
    }
    if l[0] == '+' && occurs_at(l, 1, "++ "@) {
        assert forall|k: int| 1 <= k < 4 implies l.subrange(0, 4)[k] == "+++ "@[k] by {
            assert(l.subrange(0, 4)[k] == l.subrange(1, 4)[k - 1]);
        }
        assert(l.subrange(0, 4) =~= "+++ "@);
    }
    if l[0] == '-' && occurs_at(l, 1, "-- "@) {
        assert forall|k: int| 1 <= k < 4 implies l.subrange(0, 4)[k] == "--- "@[k] by {
            assert(l.subrange(0, 4)[k] == l.subrange(1, 4)[k - 1]);
        }
        assert(l.subrange(0, 4) =~= "--- "@);
    }
}

/// Written hunk lines are accepted after a hunk header or inside a hunk.
proof fn lemma_written_hunk_lines(body: Seq<Seq<char>>, state: int)
    requires
        state == after_header() || state == in_hunk(),
        state == after_header() ==> body.len() >= 1,
        forall|i: int| 0 <= i < body.len() ==> single_line(#[trigger] body[i]) && written_hunk_line(body[i]),
    ensures
        lines_ok(unlines(body), state),
    decreases body.len(),
{
    if body.len() > 0 {
        let l = body[0];
        assert(single_line(l) && written_hunk_line(l));
        lemma_unlines_first(body);
        lemma_single_line_content(l);
        lemma_written_hunk_line(l);
        assert forall|i: int| 0 <= i < body.skip(1).len() implies single_line(#[trigger] body.skip(1)[i])
            && written_hunk_line(body.skip(1)[i]) by {
            assert(body.skip(1)[i] == body[i + 1]);
        }
        lemma_written_hunk_lines(body.skip(1), in_hunk());
    } else {
        assert(unlines(body).len() == 0);
    }
}

/// A line on its own is its own content.
proof fn lemma_single_line_content(l: Seq<char>)
    requires
        single_line(l),
    ensures
        line_content(l) == l,
        no_cr(l),
{
    if l.len() > 0 {
        assert(l.last() == l[l.len() - 1]);
    }
}

/// A line before the hunks that does not start with `@@` is passed over.
proof fn lemma_preamble_line_step(ls: Seq<Seq<char>>)
    requires
        ls.len() >= 1,
        single_line(ls[0]),
        !occurs_at(ls[0], 0, "@@"@),
        lines_ok(unlines(ls.skip(1)), before_hunks()),
    ensures
        lines_ok(unlines(ls), before_hunks()),
{
    lemma_unlines_first(ls);
    lemma_single_line_content(ls[0]);
}

/// A hunk header before the hunks starts them.
proof fn lemma_header_line_step(ls: Seq<Seq<char>>)
    requires
        ls.len() >= 1,
        single_line(ls[0]),
        occurs_at(ls[0], 0, "@@"@),
        hunk_header(ls[0]),
        lines_ok(unlines(ls.skip(1)), after_header()),
    ensures
        lines_ok(unlines(ls), before_hunks()),
{
    lemma_unlines_first(ls);
    lemma_single_line_content(ls[0]);
}

/// A unified diff of one file as diff tools write it is accepted: the `---`
/// and `+++` lines, a hunk header whose numbers fit in a `u64` (any hint may
/// follow it), then hunk lines, each a context, added or removed line or the
/// no-newline marker, however short, every line ended by a line feed.
pub proof fn law_written_diff_accepted(
    old_name: Seq<char>,
    new_name: Seq<char>,
    old_start: Seq<char>,
    old_count: Seq<char>,
    new_start: Seq<char>,
    new_count: Seq<char>,
    hint: Seq<char>,
    body: Seq<Seq<char>>,
)
    requires
        single_line(old_name),
        single_line(new_name),
        u64_numeral(old_start),
        u64_numeral(old_count),
        u64_numeral(new_start),
        u64_numeral(new_count),
        single_line(hint),
        body.len() >= 1,
        forall|i: int| 0 <= i < body.len() ==> single_line(#[trigger] body[i]) && written_hunk_line(body[i]),
    ensures
        diff_text_ok(
            unlines(
                seq![
                    "--- "@ + old_name,
                    "+++ "@ + new_name,
                    "@@ -"@ + old_start + ","@ + old_count + " +"@ + new_start + ","@ + new_count + " @@"@ + hint,
                ] + body,
            ),
        ),
{
    let h1 = "--- "@ + old_name;
    let h2 = "+++ "@ + new_name;
    let h3 = "@@ -"@ + old_start + ","@ + old_count + " +"@ + new_start + ","@ + new_count + " @@"@ + hint;
    let ls = seq![h1, h2, h3] + body;
    lemma_name_line("--- "@, old_name);
    lemma_name_line("+++ "@, new_name);
    lemma_written_hunk_header(old_start, old_count, new_start, new_count, hint);
    let ls1 = ls.skip(1);
    let ls2 = ls1.skip(1);
    assert(ls[0] == h1);
    assert(ls1[0] == h2);
    assert(ls2[0] == h3);
    assert(ls2.skip(1) =~= body);
    lemma_written_hunk_lines(body, after_header());
    lemma_header_line_step(ls2);
    lemma_preamble_line_step(ls1);
    lemma_preamble_line_step(ls);
}

/// The first line feed from `i` on, where there is one, stands at `newline_from(s, i)`,
/// and none stands before it.
proof fn lemma_newline_from(s: Seq<char>, i: int)
    requires
        0 <= i,
    ensures
        i <= newline_from(s, i) <= s.len() || (i > s.len() && newline_from(s, i) == s.len()),
        newline_from(s, i) < s.len() ==> s[newline_from(s, i)] == '\n',
    decreases s.len() - i,
{
    if i < s.len() && s[i] != '\n' {
        lemma_newline_from(s, i + 1);
    }
}

/// Text whose last line has no line feed is refused, whatever comes before
/// it, and in whatever state its lines are read.
pub proof fn law_unended_line_refused(s: Seq<char>)
    requires
        s.len() > 0,
        s.last() != '\n',
    ensures
        forall|state: int| !#[trigger] lines_ok(s, state),
        !diff_text_ok(s),
    decreases s.len(),
{
    lemma_newline_from(s, 0);
    let k = newline_from(s, 0);
    if 0 <= k < s.len() {
        let rest = s.skip(k + 1);
        assert(k < s.len() - 1);
        assert(rest.last() == s.last());
        law_unended_line_refused(rest);
    }
    assert forall|state: int| !#[trigger] lines_ok(s, state) by {
        if 0 <= k < s.len() {
            assert(!lines_ok(s.skip(k + 1), before_hunks()));
            assert(!lines_ok(s.skip(k + 1), after_header()));
            assert(!lines_ok(s.skip(k + 1), in_hunk()));
            assert(!lines_ok(s.skip(k + 1), trailing()));
        }
    }
    assert(!lines_ok(s, before_hunks()));
}

/// A hunk header whose first number is larger than a `u64` holds is no hunk
/// header, and text whose first line starting with `@@` is such a line is
/// refused, whatever follows.
pub proof fn law_oversized_number_refused(digits: Seq<char>, rest: Seq<char>, more: Seq<Seq<char>>)
    requires
        digits.len() >= 1,
        forall|i: int| 0 <= i < digits.len() ==> is_digit(#[trigger] digits[i]),
        digits_value(digits, 0, digits.len()) > u64::MAX,
        rest.len() == 0 || !is_digit(rest[0]),
        single_line(rest),
    ensures
        !hunk_header("@@ -"@ + digits + rest),
        !diff_text_ok(unlines(seq!["@@ -"@ + digits + rest] + more)),
{
    reveal_strlit("@@ -");
    reveal_strlit("@@");
    let l = "@@ -"@ + digits + rest;
    let e: int = 4 + digits.len() as int;
    assert(l.subrange(4, e) =~= digits);
    assert forall|j: int| 4 <= j < e implies is_digit(#[trigger] l[j]) by {
        assert(l[j] == digits[j - 4]);
    }
    if e < l.len() {
        assert(l[e] == rest[0]);
    }
    lemma_digit_run_to(l, 4, e);
    lemma_digits_value_of_copy(l, 4, digits, digits.len());
    assert(range_end(l, 4) is None);
    let ls = seq![l] + more;
    assert(ls[0] == l);
    assert forall|j: int| 0 <= j < l.len() implies l[j] != '\n' && l[j] != '\r' by {
        if j >= e {
            assert(l[j] == rest[j - e]);
        } else if j >= 4 {
            assert(l[j] == digits[j - 4]);
        }
    }
    lemma_unlines_first(ls);
    lemma_single_line_content(l);
    assert(l.subrange(0, 2) =~= "@@"@);
}

/// The number of consecutive digits of `l` from `i` on.
fn digit_run_at(l: &Vec<char>, i: usize) -> (r: usize)
    ensures
        r == digit_run(l@, i as int),
{
    if i >= l.len() {
        return 0;
    }
    let mut j = i;
    while j < l.len() && '0' <= l[j] && l[j] <= '9'
        invariant
            i <= j <= l@.len(),
            digit_run(l@, i as int) == (j - i) + digit_run(l@, j as int),
        decreases l@.len() - j,
    {
        j = j + 1;
    }
    j - i
}

/// Whether the `n` digits from `i` on are a number that fits in a `u64`.
fn number_fits_at(l: &Vec<char>, i: usize, n: usize) -> (r: bool)
    requires
        i + n <= l@.len(),
    ensures
        r == number_ok(l@, i as int, n as nat),
{
    if n < 1 {
        return false;
    }
    let mut v: u128 = 0;
    let mut k: usize = 0;
    while k < n
        invariant
            i + n <= l@.len(),
            l@.len() == l.len(),
            k <= n,
            v as nat == digits_value(l@, i as int, k as nat),
            v <= u64::MAX,
        decreases n - k,
    {
        let c = l[i + k];
        let d: u128 = if '0' <= c && c <= '9' {
            (c as u32 - '0' as u32) as u128
        } else {
            0
        };
        assert(d as nat == digit_value(l@[i + k]));
        v = v * 10 + d;
        k = k + 1;
        if v > u64::MAX as u128 {
            proof {
                lemma_digits_value_grows(l@, i as int, k as nat, n as nat);
            }
            return false;
        }
    }
    true
}

/// A longer run of digits never has a smaller value.
proof fn lemma_digits_value_grows(l: Seq<char>, i: int, m: nat, n: nat)
    requires
        m <= n,
    ensures
        digits_value(l, i, m) <= digits_value(l, i, n),
    decreases n,
{
    if m < n {
        lemma_digits_value_grows(l, i, m, (n - 1) as nat);
    }
}

/// Where the range that begins at `i` ends, if one does.
fn range_end_at(l: &Vec<char>, i: usize) -> (r: Option<usize>)
    ensures
        match range_end(l@, i as int) {
            None => r is None,
            Some(e) => r matches Some(x) && x as int == e && e <= l@.len(),
        },
{
    let n = digit_run_at(l, i);
    proof {
        lemma_digit_run_bound(l@, i as int);
    }
    if n < 1 {
        return None;
    }
    assert(i + n <= l@.len());
    assert(l@.len() == l.len());
    if !number_fits_at(l, i, n) {
        return None;
    }
    if i + n < l.len() && l[i + n] == ',' {
        let m = digit_run_at(l, i + n + 1);
        proof {
            lemma_digit_run_bound(l@, i + n + 1);
        }
        if m < 1 {
            return None;
        }
        assert(i + n + 1 + m <= l@.len());
        if !number_fits_at(l, i + n + 1, m) {
            return None;
        }
        Some(i + n + 1 + m)
    } else {
        Some(i + n)
    }
}

/// A run of digits stays inside the line.
proof fn lemma_digit_run_bound(l: Seq<char>, i: int)
    ensures
        0 <= i ==> i + digit_run(l, i) <= if i <= l.len() { l.len() as int } else { i },
        digit_run(l, i) > 0 ==> 0 <= i < l.len(),
    decreases l.len() - i,
{
    if 0 <= i < l.len() && is_digit(l[i]) {
        lemma_digit_run_bound(l, i + 1);
    }
}

/// Whether `p` occurs in `l` at `i`.
fn occurs_at_exec(l: &Vec<char>, i: usize, p: &Vec<char>) -> (r: bool)
    ensures
        r == occurs_at(l@, i as int, p@),
{
    if i > l.len() {
        return false;
    }
    matches_at(l, i, p)
}

/// Whether `l` is a hunk header.
fn hunk_header_exec(l: &Vec<char>) -> (r: bool)
    ensures
        r == hunk_header(l@),
{
    proof {
        reveal_strlit("@@ -");
        reveal_strlit(" +");
        reveal_strlit(" @@");
    }
    let start = chars_of("@@ -");
    let plus = chars_of(" +");
    let end = chars_of(" @@");
    if !occurs_at_exec(l, 0, &start) {
        return false;
    }
    let a = match range_end_at(l, 4) {
        None => return false,
        Some(a) => a,
    };
    if !occurs_at_exec(l, a, &plus) {
        return false;
    }
    if a > l.len() - 2 {
        return false;
    }
    let b = match range_end_at(l, a + 2) {
        None => return false,
        Some(b) => b,
    };
    occurs_at_exec(l, b, &end)
}

/// Whether `l` is a hunk line.
fn hunk_body_exec(l: &Vec<char>) -> (r: bool)
    ensures
        r == hunk_body_line(l@),
{
    proof {
        reveal_strlit("++ ");
        reveal_strlit("-- ");
        reveal_strlit("\\ No newline at end of file");
    }
    if l.len() < 1 {
        return false;
    }
    let pp = chars_of("++ ");
    let mm = chars_of("-- ");
    let marker = chars_of("\\ No newline at end of file");
    (l[0] == '+' && !occurs_at_exec(l, 1, &pp)) || (l[0] == '-' && !occurs_at_exec(l, 1, &mm))
        || l[0] == ' ' || occurs_at_exec(l, 0, &marker)
}

/// Copies `s[lo..hi]`.
fn chars_between(s: &Vec<char>, lo: usize, hi: usize) -> (r: Vec<char>)
    requires
        lo <= hi <= s@.len(),
    ensures
        r@ == s@.subrange(lo as int, hi as int),
{
    let mut out: Vec<char> = Vec::new();
    let mut k = lo;
    while k < hi
        invariant
            lo <= k <= hi <= s@.len(),
            out@ == s@.subrange(lo as int, k as int),
        decreases hi - k,
    {
        out.push(s[k]);
        k = k + 1;
        assert(out@ =~= s@.subrange(lo as int, k as int));
    }
    out
}

/// Whether `c` holds no carriage return.
fn no_cr_exec(c: &Vec<char>) -> (r: bool)
    ensures
        r == no_cr(c@),
{
    let mut i: usize = 0;
    while i < c.len()
        invariant
            i <= c@.len(),
            forall|k: int| 0 <= k < i ==> c@[k] != '\r',
        decreases c@.len() - i,
    {
        if c[i] == '\r' {
            return false;
        }
        i = i + 1;
    }
    true
}

/// Whether the diff text has the accepted shape.
pub fn diff_text_accepted(text: &str) -> (r: bool)
    ensures
        r == diff_text_ok(text@),
{
    let s = chars_of(text);
    proof {
        reveal_strlit("@@");
    }
    let at_at = chars_of("@@");
    let mut state: u8 = 0;
    let mut p: usize = 0;
    assert(s@.skip(0) =~= s@);
    loop
        invariant
            s@ == text@,
            p <= s@.len(),
            state <= 3,
            at_at@ == "@@"@,
            lines_ok(s@.skip(p as int), state as int) == lines_ok(s@, before_hunks()),
        decreases s@.len() - p,
    {
        let ghost t = s@.skip(p as int);
        if p == s.len() {
            assert(t.len() == 0);
            return state != 1;
        }
        let mut e = p;
        while e < s.len() && s[e] != '\n'
            invariant
                p <= e <= s@.len(),
                t == s@.skip(p as int),
                newline_from(t, e - p) == newline_from(t, 0),
            decreases s@.len() - e,
        {
            assert(t[e - p] == s@[e as int]);
            e = e + 1;
        }
        if e == s.len() {
            assert(newline_from(t, e - p) == t.len());
            return false;
        }
        assert(t[e - p] == s@[e as int]);
        assert(newline_from(t, 0) == e - p);
        let ce = if e > p && s[e - 1] == '\r' {
            e - 1
        } else {
            e
        };
        let line = chars_between(&s, p, ce);
        proof {
            let raw = t.take(e - p);
            if e > p {
                assert(raw.last() == s@[e - 1]);
            }
            assert(line@ =~= line_content(raw));
        }
        assert(t.skip(e - p + 1) =~= s@.skip(e + 1));
        let clean = no_cr_exec(&line);
        if state == 0 {
            if occurs_at_exec(&line, 0, &at_at) {
                if !clean || !hunk_header_exec(&line) {
                    return false;
                }
                state = 1;
            }
        } else if state == 1 {
            if !clean || !hunk_body_exec(&line) {
                return false;
            }
            state = 2;
        } else if state == 2 {
            if !clean {
                return false;
            } else if hunk_header_exec(&line) {
                state = 1;
            } else if hunk_body_exec(&line) {
                state = 2;
            } else if line.len() == 0 {
                state = 3;
            } else {
                return false;
            }
        } else {
            if line.len() != 0 {
                return false;
            }
        }
        p = e + 1;
    }
}

} // verus!
