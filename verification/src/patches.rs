//! The game's own fixes: the network script edit and the swap of a compiled
//! script inside the archive's bytes (the options menu fix is in `borderless`).

use vstd::prelude::*;
use crate::text::{replace, replaced};

verus! {

/// The multiplayer fix: every `steam_id_remote` in the network script becomes
/// `remote_steam_id`, so that network spam detection no longer times players out.
pub fn patch_steam_network_script(script: &str) -> (r: String)
    ensures
        r@ == replaced(script@, "steam_id_remote"@, "remote_steam_id"@),
{
    proof {
        reveal_strlit("steam_id_remote");
    }
    replace(script, "steam_id_remote", "remote_steam_id")
}

/// The first index at or after `from` where `pat` occurs in `s`.
pub open spec fn find_from(s: Seq<u8>, pat: Seq<u8>, from: int) -> Option<int>
    decreases s.len() + 1 - from,
{
    if from < 0 || from + pat.len() > s.len() {
        None
    } else if s.subrange(from, from + pat.len()) == pat {
        Some(from)
    } else {
        find_from(s, pat, from + 1)
    }
}

/// `s` with the bytes from the first match of `start` up to the next match of
/// `end` after it replaced by `replacement`; `s` itself where either is missing.
pub open spec fn slice_replaced(s: Seq<u8>, start: Seq<u8>, end: Seq<u8>, replacement: Seq<u8>) -> Seq<u8> {
    match find_from(s, start, 0) {
        None => s,
        Some(i) => match find_from(s, end, i + start.len()) {
            None => s,
            Some(j) => s.take(i) + replacement + s.skip(j),
        },
    }
}

/// Whether `pat` occurs in `s` at `i`.
fn bytes_match_at(s: &Vec<u8>, i: usize, pat: &[u8]) -> (r: bool)
    requires
        i <= s@.len(),
    ensures
        r == (i + pat@.len() <= s@.len() && s@.subrange(i as int, i + pat@.len()) == pat@),
{
    if pat.len() > s.len() - i {
        return false;
    }
    let mut j: usize = 0;
    while j < pat.len()
        invariant
            i + pat@.len() <= s@.len(),
            s@.len() == s.len(),
            j <= pat@.len(),
            forall|k: int| 0 <= k < j ==> s@[i + k] == pat@[k],
        decreases pat@.len() - j,
    {
        if s[i + j] != pat[j] {
            assert(s@.subrange(i as int, i + pat@.len())[j as int] != pat@[j as int]);
            return false;
        }
        j = j + 1;
    }
    assert(s@.subrange(i as int, i + pat@.len()) =~= pat@);
    true
}

/// The first index at or after `from` where `pat` occurs in `s`.
fn find_bytes(s: &Vec<u8>, pat: &[u8], from: usize) -> (r: Option<usize>)
    requires
        from <= s@.len(),
    ensures
        match find_from(s@, pat@, from as int) {
            None => r is None,
            Some(k) => r matches Some(j) && j as int == k,
        },
        r matches Some(j) ==> j + pat@.len() <= s@.len(),
{
    let mut i = from;
    while i < s.len()
        invariant
            from <= i <= s@.len(),
            s@.len() == s.len(),
            find_from(s@, pat@, i as int) == find_from(s@, pat@, from as int),
        decreases s@.len() - i,
    {
        if pat.len() > s.len() - i {
            return None;
        }
        if bytes_match_at(s, i, pat) {
            return Some(i);
        }
        i = i + 1;
    }
    if bytes_match_at(s, i, pat) {
        Some(i)
    } else {
        assert(find_from(s@, pat@, i + 1) is None);
        None
    }
}

/// Replaces, in `source`, the bytes from the first match of `start` up to the
/// next match of `end` after it by `replacement`; leaves `source` as it was
/// where either is missing.
pub fn replace_slice(source: &mut Vec<u8>, start: &[u8], end: &[u8], replacement: &[u8])
    ensures
        final(source)@ == slice_replaced(old(source)@, start@, end@, replacement@),
{
    let i = match find_bytes(source, start, 0) {
        None => return,
        Some(i) => i,
    };
    let total = source.len();
    assert(i + start@.len() <= total);
    let j = match find_bytes(source, end, i + start.len()) {
        None => return,
        Some(j) => j,
    };
    let mut out: Vec<u8> = Vec::new();
    let mut k: usize = 0;
    while k < i
        invariant
            k <= i <= source@.len(),
            out@ == source@.take(k as int),
        decreases i - k,
    {
        out.push(source[k]);
        k = k + 1;
        assert(out@ =~= source@.take(k as int));
    }
    crate::bytes::push_all(&mut out, replacement);
    let mut k: usize = j;
    let ghost mid = out@;
    while k < source.len()
        invariant
            j <= k <= source@.len(),
            out@ == mid + source@.subrange(j as int, k as int),
        decreases source@.len() - k,
    {
        out.push(source[k]);
        k = k + 1;
        assert(out@ =~= mid + source@.subrange(j as int, k as int));
    }
    assert(source@.subrange(j as int, source@.len() as int) =~= source@.skip(j as int));
    *source = out;
}

} // verus!
