//! Byte-sequence primitives: literal search, whitespace runs, and
//! replace-every-occurrence, each with a spec-level definition and a
//! verified executable counterpart.

use vstd::prelude::*;

verus! {

/// Whitespace bytes as the tag grammar accepts them between tokens:
/// space, tab, line feed, vertical tab, form feed, carriage return.
pub open spec fn is_ws(b: u8) -> bool {
    b == 32 || b == 9 || b == 10 || b == 11 || b == 12 || b == 13
}

pub fn is_ws_exec(b: u8) -> (r: bool)
    ensures
        r == is_ws(b),
{
    b == 32 || b == 9 || b == 10 || b == 11 || b == 12 || b == 13
}

/// `lit` occurs in `s` starting exactly at position `i`.
pub open spec fn lit_at(s: Seq<u8>, i: int, lit: Seq<u8>) -> bool {
    &&& 0 <= i
    &&& i + lit.len() <= s.len()
    &&& s.subrange(i, i + lit.len()) == lit
}

/// End of the whitespace run that starts at `i`: the first position at
/// or after `i` holding a non-whitespace byte, or the end of `s`.
pub open spec fn ws_end(s: Seq<u8>, i: int) -> int
    decreases s.len() - i,
{
    if i < 0 || i >= s.len() {
        i
    } else if is_ws(s[i]) {
        ws_end(s, i + 1)
    } else {
        i
    }
}

pub proof fn lemma_ws_end_bounds(s: Seq<u8>, i: int)
    requires
        0 <= i <= s.len(),
    ensures
        i <= ws_end(s, i) <= s.len(),
    decreases s.len() - i,
{
    if i < s.len() && is_ws(s[i]) {
        lemma_ws_end_bounds(s, i + 1);
    }
}

/// First position at or after `i` where the byte `b` occurs in `s`.
pub open spec fn find_byte(s: Seq<u8>, i: int, b: u8) -> Option<int>
    decreases s.len() - i,
{
    if i < 0 || i >= s.len() {
        None
    } else if s[i] == b {
        Some(i)
    } else {
        find_byte(s, i + 1, b)
    }
}

pub proof fn lemma_find_byte_bounds(s: Seq<u8>, i: int, b: u8)
    ensures
        find_byte(s, i, b) matches Some(j) ==> i <= j < s.len() && s[j] == b,
    decreases s.len() - i,
{
    if 0 <= i < s.len() && s[i] != b {
        lemma_find_byte_bounds(s, i + 1, b);
    }
}

/// First position at or after `i` where `lit` occurs in `s`.
pub open spec fn find_lit(s: Seq<u8>, i: int, lit: Seq<u8>) -> Option<int>
    decreases s.len() - i,
{
    if i < 0 || i + lit.len() > s.len() {
        None
    } else if lit_at(s, i, lit) {
        Some(i)
    } else if i >= s.len() {
        None
    } else {
        find_lit(s, i + 1, lit)
    }
}

pub proof fn lemma_find_lit_bounds(s: Seq<u8>, i: int, lit: Seq<u8>)
    ensures
        find_lit(s, i, lit) matches Some(j) ==> i <= j && j + lit.len() <= s.len()
            && lit_at(s, j, lit),
    decreases s.len() - i,
{
    if !(i < 0 || i + lit.len() > s.len()) && !lit_at(s, i, lit) && i < s.len() {
        lemma_find_lit_bounds(s, i + 1, lit);
    }
}

/// `s` from `i` on, with every occurrence of `pat` replaced by `rep`,
/// scanning left to right and never rescanning a replacement.
pub open spec fn replace_from(s: Seq<u8>, i: int, pat: Seq<u8>, rep: Seq<u8>) -> Seq<u8>
    decreases s.len() - i,
    via replace_from_dec
{
    if pat.len() == 0 {
        s.subrange(i, s.len() as int)
    } else {
        match find_lit(s, i, pat) {
            None => s.subrange(i, s.len() as int),
            Some(j) => s.subrange(i, j) + rep + replace_from(s, j + pat.len(), pat, rep),
        }
    }
}

#[via_fn]
proof fn replace_from_dec(s: Seq<u8>, i: int, pat: Seq<u8>, rep: Seq<u8>) {
    if pat.len() > 0 {
        lemma_find_lit_bounds(s, i, pat);
    }
}

/// The whole of `s` with every occurrence of `pat` replaced by `rep`.
pub open spec fn replace_all(s: Seq<u8>, pat: Seq<u8>, rep: Seq<u8>) -> Seq<u8> {
    replace_from(s, 0, pat, rep)
}

/// Replacing a non-empty `s` within itself yields the replacement.
pub proof fn lemma_replace_whole(s: Seq<u8>, rep: Seq<u8>)
    requires
        s.len() > 0,
    ensures
        replace_all(s, s, rep) == rep,
{
    assert(s.subrange(0, s.len() as int) =~= s);
    assert(lit_at(s, 0, s));
    assert(find_lit(s, 0, s) == Some(0int));
    assert(find_lit(s, s.len() as int, s) is None);
    assert(s.subrange(0, 0) + rep + replace_from(s, s.len() as int, s, rep) =~= rep);
}

pub fn vec_eq(a: &Vec<u8>, b: &Vec<u8>) -> (r: bool)
    ensures
        r == (a@ == b@),
{
    if a.len() != b.len() {
        return false;
    }
    let mut k: usize = 0;
    while k < a.len()
        invariant
            a@.len() == b@.len(),
            k <= a@.len(),
            forall|m: int| 0 <= m < k ==> a@[m] == b@[m],
        decreases a@.len() - k,
    {
        if a[k] != b[k] {
            return false;
        }
        k += 1;
    }
    proof {
        assert(a@ =~= b@);
    }
    true
}

pub fn lit_at_exec(s: &Vec<u8>, i: usize, lit: &Vec<u8>) -> (r: bool)
    ensures
        r == lit_at(s@, i as int, lit@),
{
    let n = s.len();
    if lit.len() > n || i > n - lit.len() {
        return false;
    }
    let mut k: usize = 0;
    while k < lit.len()
        invariant
            i + lit@.len() <= s@.len(),
            s@.len() <= usize::MAX,
            k <= lit@.len(),
            forall|m: int| 0 <= m < k ==> s@[i + m] == lit@[m],
        decreases lit@.len() - k,
    {
        proof {
            assert(i + k < s@.len());
        }
        if s[i + k] != lit[k] {
            proof {
                assert(s@.subrange(i as int, i + lit@.len()) == lit@ ==> s@.subrange(
                    i as int,
                    i + lit@.len(),
                )[k as int] == lit@[k as int]);
            }
            return false;
        }
        k += 1;
    }
    proof {
        assert(s@.subrange(i as int, i + lit@.len()) =~= lit@);
    }
    true
}

pub fn ws_end_exec(s: &Vec<u8>, i: usize) -> (r: usize)
    requires
        i <= s@.len(),
    ensures
        r as int == ws_end(s@, i as int),
        i <= r <= s@.len(),
{
    let mut k: usize = i;
    while k < s.len() && is_ws_exec(s[k])
        invariant
            i <= k <= s@.len(),
            ws_end(s@, i as int) == ws_end(s@, k as int),
        decreases s@.len() - k,
    {
        k += 1;
    }
    k
}

pub fn find_byte_exec(s: &Vec<u8>, from: usize, b: u8) -> (r: Option<usize>)
    ensures
        match r {
            Some(j) => find_byte(s@, from as int, b) == Some(j as int) && from <= j < s@.len(),
            None => find_byte(s@, from as int, b) is None,
        },
{
    let mut k: usize = from;
    while k < s.len()
        invariant
            from <= k,
            find_byte(s@, from as int, b) == find_byte(s@, k as int, b),
        decreases s@.len() - k,
    {
        if s[k] == b {
            return Some(k);
        }
        k += 1;
    }
    None
}

pub fn find_lit_exec(s: &Vec<u8>, from: usize, lit: &Vec<u8>) -> (r: Option<usize>)
    requires
        lit@.len() > 0,
    ensures
        match r {
            Some(j) => find_lit(s@, from as int, lit@) == Some(j as int) && from <= j
                && j + lit@.len() <= s@.len() && lit_at(s@, j as int, lit@),
            None => find_lit(s@, from as int, lit@) is None,
        },
{
    if lit.len() > s.len() {
        return None;
    }
    let mut k: usize = from;
    while k <= s.len() - lit.len()
        invariant
            0 < lit@.len() <= s@.len(),
            from <= k,
            find_lit(s@, from as int, lit@) == find_lit(s@, k as int, lit@),
        decreases s@.len() - k,
    {
        if lit_at_exec(s, k, lit) {
            return Some(k);
        }
        k += 1;
    }
    None
}

/// Appends `s[a..b]` to `dst`.
pub fn push_range(dst: &mut Vec<u8>, s: &Vec<u8>, a: usize, b: usize)
    requires
        a <= b <= s@.len(),
    ensures
        final(dst)@ == old(dst)@ + s@.subrange(a as int, b as int),
{
    proof {
        assert(dst@ =~= dst@ + s@.subrange(a as int, a as int));
    }
    let mut k: usize = a;
    while k < b
        invariant
            a <= k <= b <= s@.len(),
            dst@ == old(dst)@ + s@.subrange(a as int, k as int),
        decreases b - k,
    {
        dst.push(s[k]);
        proof {
            assert(dst@ =~= old(dst)@ + s@.subrange(a as int, k + 1));
        }
        k += 1;
    }
}

/// A fresh copy of `s[a..b]`.
pub fn copy_range(s: &Vec<u8>, a: usize, b: usize) -> (r: Vec<u8>)
    requires
        a <= b <= s@.len(),
    ensures
        r@ == s@.subrange(a as int, b as int),
{
    let mut v: Vec<u8> = Vec::new();
    push_range(&mut v, s, a, b);
    proof {
        assert(v@ =~= s@.subrange(a as int, b as int));
    }
    v
}

/// A fresh copy of the whole of `s`.
pub fn copy_vec(s: &Vec<u8>) -> (r: Vec<u8>)
    ensures
        r@ == s@,
{
    let r = copy_range(s, 0, s.len());
    proof {
        assert(s@.subrange(0, s@.len() as int) =~= s@);
    }
    r
}

/// The whole of `s` with every occurrence of `pat` replaced by `rep`.
pub fn replace_all_exec(s: &Vec<u8>, pat: &Vec<u8>, rep: &Vec<u8>) -> (r: Vec<u8>)
    requires
        pat@.len() > 0,
    ensures
        r@ == replace_all(s@, pat@, rep@),
{
    let mut out: Vec<u8> = Vec::new();
    let mut pos: usize = 0;
    proof {
        assert(out@ + replace_from(s@, 0, pat@, rep@) =~= replace_from(s@, 0, pat@, rep@));
    }
    loop
        invariant
            pat@.len() > 0,
            pos <= s@.len(),
            replace_all(s@, pat@, rep@) == out@ + replace_from(s@, pos as int, pat@, rep@),
        decreases s@.len() - pos,
    {
        match find_lit_exec(s, pos, pat) {
            None => {
                push_range(&mut out, s, pos, s.len());
                proof {
                    assert(replace_from(s@, pos as int, pat@, rep@) == s@.subrange(
                        pos as int,
                        s@.len() as int,
                    ));
                }
                return out;
            },
            Some(j) => {
                let n = s.len();
                proof {
                    assert(j + pat@.len() <= n);
                }
                let ghost prev = out@;
                push_range(&mut out, s, pos, j);
                push_range(&mut out, rep, 0, rep.len());
                proof {
                    assert(rep@.subrange(0, rep@.len() as int) =~= rep@);
                    assert(replace_from(s@, pos as int, pat@, rep@) == s@.subrange(
                        pos as int,
                        j as int,
                    ) + rep@ + replace_from(s@, j + pat@.len(), pat@, rep@));
                    assert(out@ + replace_from(s@, j + pat@.len(), pat@, rep@) =~= prev
                        + replace_from(s@, pos as int, pat@, rep@));
                }
                pos = j + pat.len();
            },
        }
    }
}

} // verus!
