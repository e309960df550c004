//! Character-level text operations: substring replacement and splitting,
//! with the semantics of the `str` methods of the same names.

use vstd::prelude::*;
use vstd::utf8::{valid_utf8, decode_utf8, encode_utf8, encode_scalar, encode_utf8_valid_utf8, encode_utf8_decode_utf8};

verus! {

/// `s` with every match of `from` replaced by `to`, matches taken left to
/// right without overlap, as `str::replace` does for a non-empty pattern.
pub open spec fn replaced(s: Seq<char>, from: Seq<char>, to: Seq<char>) -> Seq<char>
    decreases s.len(),
{
    if from.len() == 0 || s.len() < from.len() {
        s
    } else if s.take(from.len() as int) == from {
        to + replaced(s.skip(from.len() as int), from, to)
    } else {
        seq![s[0]] + replaced(s.skip(1), from, to)
    }
}

/// Where the last piece of `s.split(pat)` starts, scanning from `i` with the
/// current piece starting at `start`.
pub open spec fn last_piece_start(s: Seq<char>, pat: Seq<char>, i: int, start: int) -> int
    decreases s.len() - i,
{
    if pat.len() == 0 || i < 0 || i + pat.len() > s.len() {
        start
    } else if s.subrange(i, i + pat.len()) == pat {
        last_piece_start(s, pat, i + pat.len(), i + pat.len())
    } else {
        last_piece_start(s, pat, i + 1, start)
    }
}

/// The last piece of `s.split(pat)` for a non-empty pattern: what follows the
/// last match, or all of `s` where there is none.
pub open spec fn split_last(s: Seq<char>, pat: Seq<char>) -> Seq<char> {
    s.skip(last_piece_start(s, pat, 0, 0))
}

/// Whether `suffix` ends `s`.
pub open spec fn has_suffix(s: Seq<char>, suffix: Seq<char>) -> bool {
    suffix.len() <= s.len() && s.skip(s.len() - suffix.len()) == suffix
}

/// A run of `n` NUL characters.
pub open spec fn nuls(n: nat) -> Seq<char> {
    Seq::new(n, |i: int| '\0')
}

/// Whether `s` holds no NUL character.
pub open spec fn nul_free(s: Seq<char>) -> bool {
    forall|i: int| 0 <= i < s.len() ==> s[i] != '\0'
}

/// UTF-8 encoding distributes over concatenation.
pub proof fn lemma_encode_utf8_concat(a: Seq<char>, b: Seq<char>)
    ensures
        encode_utf8(a + b) == encode_utf8(a) + encode_utf8(b),
    decreases a.len(),
{
    if a.len() == 0 {
        assert(a + b =~= b);
        assert(encode_utf8(a) =~= Seq::<u8>::empty());
        assert(encode_utf8(a) + encode_utf8(b) =~= encode_utf8(b));
    } else {
        assert((a + b).drop_first() =~= a.drop_first() + b);
        assert((a + b)[0] == a[0]);
        lemma_encode_utf8_concat(a.drop_first(), b);
        assert(encode_utf8(a + b) =~= encode_scalar(a[0] as u32) + encode_utf8(a.drop_first() + b));
        assert(encode_utf8(a) =~= encode_scalar(a[0] as u32) + encode_utf8(a.drop_first()));
    }
}

/// NUL characters encode as zero bytes.
pub proof fn lemma_encode_nuls(n: nat)
    ensures
        encode_utf8(nuls(n)) == Seq::new(n, |i: int| 0u8),
    decreases n,
{
    if n > 0 {
        lemma_encode_nuls((n - 1) as nat);
        assert(nuls(n).drop_first() =~= nuls((n - 1) as nat));
        let z: u32 = '\0' as u32;
        assert(z == 0);
        assert(encode_scalar(z) =~= seq![0u8]) by {
            assert((0u32 & 0x7F) as u8 == 0u8) by (bit_vector);
        }
        assert(Seq::new(n, |i: int| 0u8) =~= seq![0u8] + Seq::new((n - 1) as nat, |i: int| 0u8));
    } else {
        assert(Seq::new(n, |i: int| 0u8) =~= Seq::<u8>::empty());
    }
}

/// Decoding the UTF-8 of a text followed by zero bytes gives the text followed by NULs.
pub proof fn lemma_decode_padded(s: Seq<char>, n: nat)
    ensures
        valid_utf8(encode_utf8(s) + Seq::new(n, |i: int| 0u8)),
        decode_utf8(encode_utf8(s) + Seq::new(n, |i: int| 0u8)) == s + nuls(n),
{
    lemma_encode_nuls(n);
    lemma_encode_utf8_concat(s, nuls(n));
    encode_utf8_valid_utf8(s + nuls(n));
    encode_utf8_decode_utf8(s + nuls(n));
}

/// Removing NULs from a NUL-free text followed by NULs gives the text.
pub proof fn lemma_strip_nuls(s: Seq<char>, n: nat)
    requires
        nul_free(s),
    ensures
        replaced(s + nuls(n), seq!['\0'], seq![]) == s,
    decreases s.len() + n,
{
    let t = s + nuls(n);
    if s.len() > 0 {
        assert(t.take(1) =~= seq![s[0]]);
        assert(t.take(1) != seq!['\0']) by {
            assert(t.take(1)[0] == s[0]);
        }
        assert(t.skip(1) =~= s.skip(1) + nuls(n));
        lemma_strip_nuls(s.skip(1), n);
        assert(seq![t[0]] + s.skip(1) =~= s);
    } else if n > 0 {
        assert(t =~= nuls(n));
        assert(t.take(1) =~= seq!['\0']);
        assert(t.skip(1) =~= s + nuls((n - 1) as nat));
        lemma_strip_nuls(s, (n - 1) as nat);
        assert(Seq::<char>::empty() + s =~= s);
    } else {
        assert(t =~= s);
    }
}

/// Whether `pat` occurs anywhere in `s`.
pub open spec fn occurs_in(s: Seq<char>, pat: Seq<char>) -> bool {
    exists|i: int| 0 <= i && i + pat.len() <= s.len() && #[trigger] s.subrange(i, i + pat.len()) == pat
}

/// Replacing a pattern that does not occur leaves the text as it is.
pub proof fn law_replace_absent(s: Seq<char>, from: Seq<char>, to: Seq<char>)
    requires
        !occurs_in(s, from),
    ensures
        replaced(s, from, to) == s,
    decreases s.len(),
{
    if from.len() > 0 && s.len() >= from.len() {
        assert(s.take(from.len() as int) != from) by {
            let z: int = 0;
            assert(!(0 <= z && z + from.len() <= s.len() && s.subrange(z, z + from.len()) == from));
            assert(s.subrange(z, z + from.len()) =~= s.take(from.len() as int));
        }
        let t = s.skip(1);
        assert(!occurs_in(t, from)) by {
            if occurs_in(t, from) {
                let i = choose|i: int| 0 <= i && i + from.len() <= t.len() && #[trigger] t.subrange(i, i + from.len()) == from;
                assert(s.subrange(i + 1, i + 1 + from.len()) =~= t.subrange(i, i + from.len()));
            }
        }
        law_replace_absent(t, from, to);
        assert(seq![s[0]] + t =~= s);
    }
}

/// A filter that every element passes keeps the sequence.
pub proof fn lemma_filter_keeps_all<A>(s: Seq<A>, p: spec_fn(A) -> bool)
    requires
        forall|i: int| 0 <= i < s.len() ==> #[trigger] p(s[i]),
    ensures
        s.filter(p) == s,
    decreases s.len(),
{
    reveal(Seq::filter);
    if s.len() > 0 {
        let init = s.drop_last();
        assert forall|i: int| 0 <= i < init.len() implies #[trigger] p(init[i]) by {
            assert(init[i] == s[i]);
            assert(p(s[i]));
        }
        lemma_filter_keeps_all(init, p);
        assert(p(s[s.len() - 1]));
        assert(s.filter(p) =~= s);
    } else {
        assert(s.filter(p) =~= s);
    }
}

/// Filtering never lengthens.
pub proof fn lemma_filter_len_le<A>(s: Seq<A>, p: spec_fn(A) -> bool)
    ensures
        s.filter(p).len() <= s.len(),
    decreases s.len(),
{
    reveal(Seq::filter);
    if s.len() > 0 {
        lemma_filter_len_le(s.drop_last(), p);
    }
}

/// The characters of `s`, in order.
pub fn chars_of(s: &str) -> (r: Vec<char>)
    ensures
        r@ == s@,
{
    let mut out: Vec<char> = Vec::new();
    for c in it: s.chars()
        invariant
            out@ == it.seq().take(it.index() as int),
    {
        out.push(c);
    }
    out
}

/// The text that `String::from_utf8_lossy` makes of a byte sequence that is
/// not valid UTF-8.
pub uninterp spec fn utf8_lossy(bytes: Seq<u8>) -> Seq<char>;

/// The text that `String::from_utf8_lossy` makes of a byte sequence: the
/// characters it encodes when it is valid UTF-8.
pub open spec fn lossy_decoded(bytes: Seq<u8>) -> Seq<char> {
    if valid_utf8(bytes) {
        decode_utf8(bytes)
    } else {
        utf8_lossy(bytes)
    }
}

/// `String::from_utf8_lossy`: decodes the bytes, replacing each invalid
/// sequence by U+FFFD; bytes that are valid UTF-8 decode to the characters they
/// encode. The borrowed or owned result is turned into an owned `String`.
#[verifier::external_body]
pub(crate) fn decode_lossy(bytes: &[u8]) -> (r: String)
    ensures
        r@ == lossy_decoded(bytes@),
        !valid_utf8(bytes@) ==> r@ == utf8_lossy(bytes@),
{
    String::from_utf8_lossy(bytes).into_owned()
}

/// `String::from_iter` over characters: the string of exactly these characters.
#[verifier::external_body]
pub(crate) fn string_of(chars: &Vec<char>) -> (r: String)
    ensures
        r@ == chars@,
{
    String::from_iter(chars.iter())
}

/// Whether `pat` occurs in `s` at index `i`.
pub(crate) fn matches_at(s: &Vec<char>, i: usize, pat: &Vec<char>) -> (r: bool)
    requires
        i <= s@.len(),
    ensures
        r == (i + pat@.len() <= s@.len() && s@.subrange(i as int, i + pat@.len()) == pat@),
{
    if pat.len() > s.len() - i {
        return false;
    }
    let mut j: usize = 0;
    while j < pat.len()
        invariant
            i + pat@.len() <= s@.len(),
            j <= pat@.len(),
            forall|k: int| 0 <= k < j ==> s@[i + k] == pat@[k],
        decreases pat@.len() - j,
    {
        assert(s@.len() == s.len());
        assert(i + j < s.len());
        if s[i + j] != pat[j] {
            assert(s@.subrange(i as int, i + pat@.len())[j as int] != pat@[j as int]);
            return false;
        }
        j = j + 1;
    }
    assert(s@.subrange(i as int, i + pat@.len()) =~= pat@);
    true
}

/// Appends all of `src`.
fn push_chars(out: &mut Vec<char>, src: &Vec<char>)
    ensures
        final(out)@ == old(out)@ + src@,
{
    let mut k: usize = 0;
    while k < src.len()
        invariant
            k <= src@.len(),
            out@ == old(out)@ + src@.take(k as int),
        decreases src@.len() - k,
    {
        out.push(src[k]);
        k = k + 1;
        assert(out@ =~= old(out)@ + src@.take(k as int));
    }
    assert(src@.take(src@.len() as int) =~= src@);
}

/// `s` with each match of `from` replaced by `to` (`str::replace`).
pub fn replace(s: &str, from: &str, to: &str) -> (r: String)
    requires
        from@.len() > 0,
    ensures
        r@ == replaced(s@, from@, to@),
{
    let sc = chars_of(s);
    let fc = chars_of(from);
    let tc = chars_of(to);
    let mut out: Vec<char> = Vec::new();
    let mut i: usize = 0;
    assert(sc@.skip(0) =~= sc@);
    assert(out@ + sc@ =~= sc@);
    while i < sc.len()
        invariant
            sc@ == s@,
            fc@ == from@,
            tc@ == to@,
            fc@.len() > 0,
            i <= sc@.len(),
            out@ + replaced(sc@.skip(i as int), fc@, tc@) == replaced(sc@, fc@, tc@),
        decreases sc@.len() - i,
    {
        let ghost rest = sc@.skip(i as int);
        if matches_at(&sc, i, &fc) {
            assert(rest.take(fc@.len() as int) =~= fc@);
            assert(rest.skip(fc@.len() as int) =~= sc@.skip(i + fc@.len()));
            let ghost before = out@;
            push_chars(&mut out, &tc);
            assert(replaced(rest, fc@, tc@) == tc@ + replaced(sc@.skip(i + fc@.len()), fc@, tc@));
            assert(out@ + replaced(sc@.skip(i + fc@.len()), fc@, tc@) =~= before + replaced(rest, fc@, tc@));
            i = i + fc.len();
        } else {
            assert(rest.skip(1) =~= sc@.skip(i + 1));
            assert(rest[0] == sc@[i as int]);
            proof {
                if rest.len() < fc@.len() {
                    assert(replaced(rest, fc@, tc@) == rest);
                    assert(replaced(rest.skip(1), fc@, tc@) == rest.skip(1));
                    assert(rest =~= seq![rest[0]] + rest.skip(1));
                } else {
                    assert(rest.take(fc@.len() as int) =~= sc@.subrange(i as int, i + fc@.len()));
                    assert(replaced(rest, fc@, tc@) == seq![rest[0]] + replaced(rest.skip(1), fc@, tc@));
                }
            }
            let ghost before = out@;
            out.push(sc[i]);
            assert(out@ + replaced(sc@.skip(i + 1), fc@, tc@) =~= before + replaced(rest, fc@, tc@));
            i = i + 1;
        }
    }
    assert(sc@.skip(i as int) =~= Seq::<char>::empty());
    assert(out@ + Seq::<char>::empty() =~= out@);
    string_of(&out)
}

/// The characters of `s` from index `start` on.
fn chars_from(s: &Vec<char>, start: usize) -> (r: Vec<char>)
    requires
        start <= s@.len(),
    ensures
        r@ == s@.skip(start as int),
{
    let mut out: Vec<char> = Vec::new();
    let mut k: usize = start;
    while k < s.len()
        invariant
            start <= k <= s@.len(),
            out@ == s@.subrange(start as int, k as int),
        decreases s@.len() - k,
    {
        out.push(s[k]);
        k = k + 1;
        assert(out@ =~= s@.subrange(start as int, k as int));
    }
    assert(out@ =~= s@.skip(start as int));
    out
}

/// The last piece of `s.split(pat)`: what follows the last match of `pat`, or
/// all of `s` where there is none.
pub fn last_split_piece(s: &str, pat: &str) -> (r: String)
    requires
        pat@.len() > 0,
    ensures
        r@ == split_last(s@, pat@),
{
    let sc = chars_of(s);
    let pc = chars_of(pat);
    let mut i: usize = 0;
    let mut start: usize = 0;
    while pc.len() <= sc.len() && i <= sc.len() - pc.len()
        invariant
            sc@ == s@,
            pc@ == pat@,
            pc@.len() > 0,
            start <= i <= sc@.len(),
            last_piece_start(sc@, pc@, i as int, start as int) == last_piece_start(sc@, pc@, 0, 0),
        decreases sc@.len() - i,
    {
        if matches_at(&sc, i, &pc) {
            i = i + pc.len();
            start = i;
        } else {
            i = i + 1;
        }
    }
    let rest = chars_from(&sc, start);
    string_of(&rest)
}

/// Whether `s` ends with `suffix` (`str::ends_with`).
pub fn ends_with(s: &str, suffix: &str) -> (r: bool)
    ensures
        r == has_suffix(s@, suffix@),
{
    let sc = chars_of(s);
    let xc = chars_of(suffix);
    if xc.len() > sc.len() {
        return false;
    }
    let r = matches_at(&sc, sc.len() - xc.len(), &xc);
    assert(sc@.subrange(sc@.len() - xc@.len(), sc@.len() as int) =~= sc@.skip(sc@.len() - xc@.len()));
    r
}

} // verus!
