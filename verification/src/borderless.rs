//! Statements that assign the borderless-window property of Godot's `OS`
//! singleton (`OS.window_borderless`, also spelled `OS.windowed_borderless`),
//! and their removal from a script.

use vstd::prelude::*;
use crate::diff_text::newline_from;
use crate::text::{chars_of, string_of, matches_at};

verus! {

/// The number of spaces and tabs of `s` from index `i` on.
pub open spec fn space_run(s: Seq<char>, i: int) -> nat
    decreases s.len() - i,
{
    if 0 <= i < s.len() && (s[i] == ' ' || s[i] == '\t') {
        1 + space_run(s, i + 1)
    } else {
        0
    }
}

/// Whether `s` starts with an assignment to `name`: the name, spaces or tabs,
/// then `=` not followed by another `=`.
pub open spec fn assigns_name(s: Seq<char>, name: Seq<char>) -> bool {
    &&& s.len() >= name.len()
    &&& s.take(name.len() as int) == name
    &&& {
        let k = (name.len() + space_run(s, name.len() as int)) as int;
        &&& k < s.len()
        &&& s[k] == '='
        &&& (k + 1 >= s.len() || s[k + 1] != '=')
    }
}

/// Whether `s` starts with an assignment to the borderless-window property.
pub open spec fn assigns_borderless(s: Seq<char>) -> bool {
    assigns_name(s, "OS.window_borderless"@) || assigns_name(s, "OS.windowed_borderless"@)
}

/// `s` with every assignment to the borderless-window property removed, each
/// from the property's name to the end of its line (the line feed stays).
pub open spec fn strip_borderless(s: Seq<char>) -> Seq<char>
    decreases s.len(),
{
    if s.len() == 0 {
        s
    } else if assigns_borderless(s) && 0 < newline_from(s, 0) <= s.len() {
        strip_borderless(s.skip(newline_from(s, 0)))
    } else {
        seq![s[0]] + strip_borderless(s.skip(1))
    }
}

/// Whether no position of `s` starts an assignment to the borderless-window property.
pub open spec fn no_borderless_assignment(s: Seq<char>) -> bool {
    forall|i: int| 0 <= i < s.len() ==> !#[trigger] assigns_borderless(s.skip(i))
}

/// The index where the first assignment starts, or the length of `s`.
pub open spec fn first_assignment(s: Seq<char>) -> int
    decreases s.len(),
{
    if s.len() == 0 || assigns_borderless(s) {
        0
    } else {
        1 + first_assignment(s.skip(1))
    }
}

/// A name that no line feed or `=` can begin, and that holds no line feed.
pub open spec fn plain_name(name: Seq<char>) -> bool {
    &&& name.len() > 0
    &&& name[0] != '=' && name[0] != '\n'
    &&& forall|i: int| 0 <= i < name.len() ==> name[i] != '\n'
}

proof fn lemma_names_plain()
    ensures
        plain_name("OS.window_borderless"@),
        plain_name("OS.windowed_borderless"@),
{
    reveal_strlit("OS.window_borderless");
    reveal_strlit("OS.windowed_borderless");
}

/// The spaces counted by `space_run` are spaces or tabs, inside `s`, and the
/// count stops at a character that is neither.
proof fn lemma_space_run(s: Seq<char>, i: int)
    requires
        0 <= i,
    ensures
        i + space_run(s, i) <= s.len() || space_run(s, i) == 0,
        forall|x: int| i <= x < i + space_run(s, i) ==> s[x] == ' ' || s[x] == '\t',
        i + space_run(s, i) < s.len() ==> !(s[i + space_run(s, i)] == ' ' || s[i + space_run(s, i)] == '\t'),
    decreases s.len() - i,
{
    if 0 <= i < s.len() && (s[i] == ' ' || s[i] == '\t') {
        lemma_space_run(s, i + 1);
    }
}

/// Two sequences that agree up to the end of a run agree on the run.
proof fn lemma_space_run_agree(s: Seq<char>, t: Seq<char>, i: int, m: int)
    requires
        0 <= i,
        i + space_run(s, i) < m,
        m <= s.len(),
        m <= t.len(),
        s.take(m) == t.take(m),
    ensures
        space_run(t, i) == space_run(s, i),
    decreases s.len() - i,
{
    assert(s[i] == s.take(m)[i]);
    assert(t[i] == t.take(m)[i]);
    if 0 <= i < s.len() && (s[i] == ' ' || s[i] == '\t') {
        lemma_space_run_agree(s, t, i + 1, m);
    }
}

/// `space_run` read in a suffix.
pub proof fn lemma_space_run_skip(s: Seq<char>, j: int, a: int)
    requires
        0 <= j <= s.len(),
        0 <= a,
    ensures
        space_run(s.skip(j), a) == space_run(s, j + a),
    decreases s.len() - j - a,
{
    if 0 <= j + a < s.len() && (s[j + a] == ' ' || s[j + a] == '\t') {
        assert(s.skip(j)[a] == s[j + a]);
        lemma_space_run_skip(s, j, a + 1);
    } else if a < s.skip(j).len() {
        assert(s.skip(j)[a] == s[j + a]);
    }
}

/// An assignment starts with the first character of the name.
proof fn lemma_assignment_start(s: Seq<char>)
    requires
        assigns_borderless(s),
    ensures
        s.len() > 0,
        s[0] != '\n',
        s[0] != '=',
{
    lemma_names_plain();
    let name = if assigns_name(s, "OS.window_borderless"@) {
        "OS.window_borderless"@
    } else {
        "OS.windowed_borderless"@
    };
    assert(assigns_name(s, name));
    assert(s.take(name.len() as int)[0] == s[0]);
}

/// A sequence that starts with a line feed starts no assignment.
proof fn lemma_newline_start(s: Seq<char>, name: Seq<char>)
    requires
        plain_name(name),
        s.len() > 0,
        s[0] == '\n',
    ensures
        !assigns_name(s, name),
{
    if s.len() >= name.len() && s.take(name.len() as int) == name {
        assert(s.take(name.len() as int)[0] == s[0]);
    }
}

/// The line-feed search starts at least where it is asked to.
proof fn lemma_newline_from(s: Seq<char>, i: int)
    requires
        0 <= i,
    ensures
        i <= newline_from(s, i) <= s.len() || (i > s.len() && newline_from(s, i) == s.len()),
        newline_from(s, i) < s.len() ==> s[newline_from(s, i)] == '\n',
        forall|x: int| i <= x < newline_from(s, i) ==> s[x] != '\n',
    decreases s.len() - i,
{
    if 0 <= i < s.len() && s[i] != '\n' {
        lemma_newline_from(s, i + 1);
    }
}

/// What is left of `s` once assignments are removed: the part of `s` before
/// its first assignment, then text that is empty or starts with a line feed.
proof fn lemma_strip_shape(s: Seq<char>)
    ensures
        0 <= first_assignment(s) <= s.len(),
        forall|i: int| 0 <= i < first_assignment(s) ==> !#[trigger] assigns_borderless(s.skip(i)),
        first_assignment(s) < s.len() ==> assigns_borderless(s.skip(first_assignment(s))),
        ({
            let j = first_assignment(s);
            let r = strip_borderless(s.skip(j));
            &&& strip_borderless(s) == s.take(j) + r
            &&& (r.len() == 0 || r[0] == '\n')
        }),
    decreases s.len(),
{
    lemma_names_plain();
    if s.len() == 0 {
        assert(s.take(0) + strip_borderless(s.skip(0)) =~= strip_borderless(s));
    } else if assigns_borderless(s) {
        assert(s.skip(0) =~= s);
        assert(s.take(0) + strip_borderless(s) =~= strip_borderless(s));
        lemma_newline_from(s, 0);
        lemma_assignment_start(s);
        lemma_newline_from(s, 1);
        let k = newline_from(s, 0);
        assert(newline_from(s, 0) == newline_from(s, 1));
        let u = s.skip(k);
        assert(0 < k <= s.len());
        assert(strip_borderless(s) == strip_borderless(u));
        assert(first_assignment(s) == 0);
        if u.len() > 0 {
            assert(u[0] == '\n');
            lemma_newline_start(u, "OS.window_borderless"@);
            lemma_newline_start(u, "OS.windowed_borderless"@);
            assert(!assigns_borderless(u));
            assert(strip_borderless(u) == seq![u[0]] + strip_borderless(u.skip(1)));
            assert(strip_borderless(u)[0] == '\n');
        } else {
            assert(strip_borderless(u).len() == 0);
        }
    } else {
        let t = s.skip(1);
        lemma_strip_shape(t);
        let jt = first_assignment(t);
        assert forall|i: int| 0 <= i < first_assignment(s) implies !#[trigger] assigns_borderless(s.skip(i)) by {
            if i > 0 {
                assert(s.skip(i) =~= t.skip(i - 1));
            } else {
                assert(s.skip(0) =~= s);
            }
        }
        assert(s.skip(1 + jt) =~= t.skip(jt));
        assert(strip_borderless(s) == seq![s[0]] + strip_borderless(t));
        assert(seq![s[0]] + (t.take(jt) + strip_borderless(t.skip(jt))) =~= s.take(1 + jt) + strip_borderless(t.skip(jt)));
    }
}

/// Text that starts with the part of `s` before its first assignment, then
/// continues with a line feed or ends there, starts no assignment to `name`.
proof fn lemma_no_assignment_at_start(s: Seq<char>, r: Seq<char>, name: Seq<char>)
    requires
        plain_name(name),
        0 < first_assignment(s) <= s.len(),
        !assigns_borderless(s),
        first_assignment(s) < s.len() ==> assigns_borderless(s.skip(first_assignment(s))),
        r.len() == 0 || r[0] == '\n',
        name == "OS.window_borderless"@ || name == "OS.windowed_borderless"@,
    ensures
        !assigns_name(s.take(first_assignment(s)) + r, name),
{
    lemma_names_plain();
    let j = first_assignment(s);
    let t = s.take(j) + r;
    let n = name.len() as int;
    if assigns_name(t, name) {
        let k = n + space_run(t, n);
        lemma_space_run(t, n);
        // Every character up to `k` is part of the name, a space or `=`, so none is a line feed.
        assert(k < j) by {
            if k >= j {
                if r.len() > 0 {
                    assert(t[j] == '\n');
                    if j < n {
                        assert(t.take(n)[j] == t[j]);
                    } else if j < k {
                        assert(t[j] == ' ' || t[j] == '\t');
                    }
                }
            }
        }
        assert(t.take(k + 1) =~= s.take(k + 1));
        lemma_space_run_agree(t, s, n, k + 1);
        assert(s.take(n) =~= t.take(n));
        assert(s[k] == t[k]);
        if k + 1 < j {
            assert(s[k + 1] == t[k + 1]);
        } else {
            // `k + 1 == j`: `s` ends there or another assignment starts there.
            if j < s.len() {
                let u = s.skip(j);
                assert(u[0] == s[j]);
                lemma_assignment_start(u);
            }
        }
        assert(assigns_name(s, name));
    }
}

/// After removal no assignment to the borderless-window property is left.
pub proof fn law_strip_leaves_no_assignment(s: Seq<char>)
    ensures
        no_borderless_assignment(strip_borderless(s)),
    decreases s.len(),
{
    lemma_names_plain();
    let out = strip_borderless(s);
    if s.len() == 0 {
    } else if assigns_borderless(s) && 0 < newline_from(s, 0) <= s.len() {
        law_strip_leaves_no_assignment(s.skip(newline_from(s, 0)));
    } else {
        let t = s.skip(1);
        law_strip_leaves_no_assignment(t);
        let rest = strip_borderless(t);
        assert(out == seq![s[0]] + rest);
        assert forall|i: int| 0 <= i < out.len() implies !#[trigger] assigns_borderless(out.skip(i)) by {
            if i > 0 {
                assert(out.skip(i) =~= rest.skip(i - 1));
            } else {
                assert(out.skip(0) =~= out);
                if !assigns_borderless(s) {
                    lemma_strip_shape(s);
                    let j = first_assignment(s);
                    assert(j > 0);
                    lemma_no_assignment_at_start(s, strip_borderless(s.skip(j)), "OS.window_borderless"@);
                    lemma_no_assignment_at_start(s, strip_borderless(s.skip(j)), "OS.windowed_borderless"@);
                } else {
                    lemma_newline_from(s, 0);
                    assert(newline_from(s, 0) == 0);
                    assert(s[0] == '\n');
                    lemma_newline_start(s, "OS.window_borderless"@);
                    lemma_newline_start(s, "OS.windowed_borderless"@);
                }
            }
        }
    }
}

/// Whether an assignment to `name` starts at index `i` of `s`.
fn assigns_name_at(s: &Vec<char>, i: usize, name: &Vec<char>) -> (r: bool)
    requires
        i <= s@.len(),
    ensures
        r == assigns_name(s@.skip(i as int), name@),
{
    let ghost t = s@.skip(i as int);
    if !matches_at(s, i, name) {
        assert(t.len() >= name@.len() && t.take(name@.len() as int) == name@ ==> s@.subrange(
            i as int,
            i + name@.len(),
        ) =~= t.take(name@.len() as int));
        return false;
    }
    assert(t.take(name@.len() as int) =~= s@.subrange(i as int, i + name@.len()));
    let slen = s.len();
    assert(i + name@.len() <= slen);
    let mut k = i + name.len();
    while k < s.len() && (s[k] == ' ' || s[k] == '\t')
        invariant
            i + name@.len() <= k <= s@.len(),
            space_run(s@, i + name@.len()) == (k - i - name@.len()) + space_run(s@, k as int),
        decreases s@.len() - k,
    {
        k = k + 1;
    }
    proof {
        lemma_space_run_skip(s@, i as int, name@.len() as int);
        assert(space_run(s@, k as int) == 0);
    }
    let kk = k - i;
    assert(kk == name@.len() + space_run(t, name@.len() as int));
    if k >= s.len() {
        return false;
    }
    assert(t[kk as int] == s@[k as int]);
    if s[k] != '=' {
        return false;
    }
    if k + 1 < s.len() {
        assert(t[kk + 1] == s@[k + 1]);
        s[k + 1] != '='
    } else {
        true
    }
}

/// The options menu fix: every statement that assigns the borderless-window
/// property is removed, from the property's name to the end of its line. The
/// assignment crashes the game when the options are saved.
pub fn patch_options_menu_script(script: &str) -> (r: String)
    ensures
        r@ == strip_borderless(script@),
        no_borderless_assignment(r@),
{
    proof {
        reveal_strlit("OS.window_borderless");
        reveal_strlit("OS.windowed_borderless");
        law_strip_leaves_no_assignment(script@);
    }
    let s = chars_of(script);
    let short_name = chars_of("OS.window_borderless");
    let long_name = chars_of("OS.windowed_borderless");
    let mut out: Vec<char> = Vec::new();
    let mut i: usize = 0;
    assert(s@.skip(0) =~= s@);
    assert(out@ + strip_borderless(s@) =~= strip_borderless(s@));
    while i < s.len()
        invariant
            s@ == script@,
            short_name@ == "OS.window_borderless"@,
            long_name@ == "OS.windowed_borderless"@,
            i <= s@.len(),
            out@ + strip_borderless(s@.skip(i as int)) == strip_borderless(s@),
        decreases s@.len() - i,
    {
        let ghost t = s@.skip(i as int);
        let found = assigns_name_at(&s, i, &short_name) || assigns_name_at(&s, i, &long_name);
        assert(found == assigns_borderless(t));
        let mut e = i;
        if found {
            proof {
                lemma_assignment_start(t);
                assert(s@[i as int] == t[0]);
            }
            while e < s.len() && s[e] != '\n'
                invariant
                    i <= e <= s@.len(),
                    t == s@.skip(i as int),
                    newline_from(t, e - i) == newline_from(t, 0),
                decreases s@.len() - e,
            {
                assert(t[e - i] == s@[e as int]);
                e = e + 1;
            }
            proof {
                if e < s@.len() {
                    assert(t[e - i] == s@[e as int]);
                }
                assert(newline_from(t, 0) == e - i);
                assert(e > i);
                assert(t.skip(e - i) =~= s@.skip(e as int));
            }
            i = e;
        } else {
            let ghost before = out@;
            out.push(s[i]);
            assert(t.skip(1) =~= s@.skip(i + 1));
            assert(t[0] == s@[i as int]);
            assert(out@ + strip_borderless(s@.skip(i + 1)) =~= before + strip_borderless(t));
            i = i + 1;
        }
    }
    assert(s@.skip(i as int) =~= Seq::<char>::empty());
    assert(out@ + Seq::<char>::empty() =~= out@);
    string_of(&out)
}

} // verus!
