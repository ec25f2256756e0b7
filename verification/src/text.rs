//! Byte-level text utilities shared by the wire parser, the router and
//! the response serializer: substring search, whitespace trimming, and
//! decimal parsing/formatting, each proved against a spec-level model.

use vstd::prelude::*;

verus! {

/// Whitespace bytes, matching what trimming removes from ASCII text:
/// tab, line feed, vertical tab, form feed, carriage return, space.
pub open spec fn is_ws(b: u8) -> bool {
    b == 9 || b == 10 || b == 11 || b == 12 || b == 13 || b == 32
}

/// ASCII decimal digit.
pub open spec fn is_digit(b: u8) -> bool {
    48 <= b && b <= 57
}

/// `pat` occurs in `s` starting at index `i`.
pub open spec fn match_at(s: Seq<u8>, pat: Seq<u8>, i: int) -> bool {
    &&& 0 <= i
    &&& i + pat.len() <= s.len()
    &&& forall|j: int| 0 <= j < pat.len() ==> s[i + j] == pat[j]
}

/// Index of the first occurrence of `pat` in `s` at or after `from`.
pub open spec fn find_sub(s: Seq<u8>, pat: Seq<u8>, from: int) -> Option<int>
    decreases s.len() - from,
{
    if from < 0 {
        None
    } else if from + pat.len() > s.len() {
        None
    } else if match_at(s, pat, from) {
        Some(from)
    } else {
        find_sub(s, pat, from + 1)
    }
}

/// What a `find_sub` result means: the returned index is the first match,
/// and `None` means there is no match at all.
pub proof fn lemma_find_sub_props(s: Seq<u8>, pat: Seq<u8>, from: int)
    requires
        0 <= from,
    ensures
        match find_sub(s, pat, from) {
            Some(i) => {
                &&& from <= i
                &&& i + pat.len() <= s.len()
                &&& match_at(s, pat, i)
                &&& forall|k: int| from <= k < i ==> !match_at(s, pat, k)
            },
            None => forall|k: int| from <= k ==> !match_at(s, pat, k),
        },
    decreases s.len() - from,
{
    if from + pat.len() > s.len() {
    } else if match_at(s, pat, from) {
    } else {
        lemma_find_sub_props(s, pat, from + 1);
    }
}

/// A scan that saw no match before `i` and a match at `i` pins `find_sub`.
pub proof fn lemma_find_sub_found(s: Seq<u8>, pat: Seq<u8>, from: int, i: int)
    requires
        0 <= from <= i,
        match_at(s, pat, i),
        forall|k: int| from <= k < i ==> !match_at(s, pat, k),
    ensures
        find_sub(s, pat, from) == Some(i),
    decreases i - from,
{
    if from < i {
        lemma_find_sub_found(s, pat, from + 1, i);
    }
}

/// A scan that saw no match anywhere pins `find_sub` to `None`.
pub proof fn lemma_find_sub_missing(s: Seq<u8>, pat: Seq<u8>, from: int)
    requires
        0 <= from,
        forall|k: int| from <= k ==> !match_at(s, pat, k),
    ensures
        find_sub(s, pat, from) is None,
    decreases s.len() - from,
{
    if from + pat.len() <= s.len() {
        lemma_find_sub_missing(s, pat, from + 1);
    }
}

/// First index in `[lo, hi)` holding a non-whitespace byte (or `hi`).
pub open spec fn skip_ws_fwd(s: Seq<u8>, lo: int, hi: int) -> int
    decreases hi - lo,
{
    if lo >= hi {
        lo
    } else if is_ws(s[lo]) {
        skip_ws_fwd(s, lo + 1, hi)
    } else {
        lo
    }
}

/// Last bound in `(lo, hi]` such that the byte just before it is not
/// whitespace (or `lo`).
pub open spec fn skip_ws_back(s: Seq<u8>, lo: int, hi: int) -> int
    decreases hi - lo,
{
    if hi <= lo {
        hi
    } else if is_ws(s[hi - 1]) {
        skip_ws_back(s, lo, hi - 1)
    } else {
        hi
    }
}

pub proof fn lemma_skip_ws_fwd_bounds(s: Seq<u8>, lo: int, hi: int)
    requires
        lo <= hi,
    ensures
        lo <= skip_ws_fwd(s, lo, hi) <= hi,
    decreases hi - lo,
{
    if lo < hi && is_ws(s[lo]) {
        lemma_skip_ws_fwd_bounds(s, lo + 1, hi);
    }
}

pub proof fn lemma_skip_ws_back_bounds(s: Seq<u8>, lo: int, hi: int)
    requires
        lo <= hi,
    ensures
        lo <= skip_ws_back(s, lo, hi) <= hi,
    decreases hi - lo,
{
    if lo < hi && is_ws(s[hi - 1]) {
        lemma_skip_ws_back_bounds(s, lo, hi - 1);
    }
}

/// The bytes of `s[lo..hi]` with surrounding whitespace removed.
pub open spec fn trimmed(s: Seq<u8>, lo: int, hi: int) -> Seq<u8> {
    let f = skip_ws_fwd(s, lo, hi);
    let b = skip_ws_back(s, f, hi);
    s.subrange(f, b)
}

/// Mathematical value of a digit string, most significant digit first.
pub open spec fn digits_val(s: Seq<u8>) -> int
    decreases s.len(),
{
    if s.len() == 0 {
        0
    } else {
        digits_val(s.drop_last()) * 10 + (s.last() - 48)
    }
}

pub open spec fn all_digits(s: Seq<u8>) -> bool {
    forall|i: int| 0 <= i < s.len() ==> is_digit(#[trigger] s[i])
}

/// Decimal interpretation of `s`: an optional leading `+`, then one or
/// more digits, whose value must not exceed `max`.
pub open spec fn dec_of(s: Seq<u8>, max: int) -> Option<int> {
    let body = if s.len() > 0 && s[0] == 43 {
        s.subrange(1, s.len() as int)
    } else {
        s
    };
    if body.len() > 0 && all_digits(body) && digits_val(body) <= max {
        Some(digits_val(body))
    } else {
        None
    }
}

/// Decimal digit string for `n`, without sign or padding.
pub open spec fn dec_digits(n: int) -> Seq<u8>
    decreases n,
{
    if n < 10 {
        seq![(n + 48) as u8]
    } else {
        dec_digits(n / 10) + seq![(n % 10 + 48) as u8]
    }
}

pub proof fn lemma_digits_val_nonneg(s: Seq<u8>)
    requires
        all_digits(s),
    ensures
        digits_val(s) >= 0,
    decreases s.len(),
{
    if s.len() > 0 {
        assert(forall|i: int|
            0 <= i < s.len() - 1 ==> s.drop_last()[i] == #[trigger] s[i]);
        lemma_digits_val_nonneg(s.drop_last());
    }
}

/// Extending a digit string can only increase its value.
pub proof fn lemma_digits_val_prefix(s: Seq<u8>, n: int)
    requires
        all_digits(s),
        0 <= n <= s.len(),
    ensures
        digits_val(s) >= digits_val(s.take(n)),
    decreases s.len() - n,
{
    if n < s.len() {
        assert(s.take(n + 1).drop_last() =~= s.take(n));
        assert(digits_val(s.take(n + 1)) == digits_val(s.take(n)) * 10 + (s[n] - 48));
        assert(forall|i: int| 0 <= i < n ==> s.take(n)[i] == #[trigger] s[i]);
        lemma_digits_val_nonneg(s.take(n));
        lemma_digits_val_prefix(s, n + 1);
    } else {
        assert(s.take(n) =~= s);
    }
}

/// A slice's length fits in `usize`.
pub proof fn lemma_slice_len_bound(s: &[u8])
    ensures
        s@.len() <= usize::MAX as int,
{
    broadcast use vstd::slice::axiom_spec_len;

    assert(s@.len() == s.len());
}

/// True when the byte ranges `a` and `b` hold the same bytes.
pub fn bytes_eq(a: &[u8], b: &[u8]) -> (r: bool)
    ensures
        r <==> a@ == b@,
{
    if a.len() != b.len() {
        assert(a@.len() != b@.len());
        return false;
    }
    let n: usize = a.len();
    let mut i: usize = 0;
    while i < n
        invariant
            n == a@.len() && n == b@.len(),
            0 <= i <= n,
            forall|k: int| 0 <= k < i ==> a@[k] == b@[k],
        decreases n - i,
    {
        if a[i] != b[i] {
            return false;
        }
        i = i + 1;
    }
    assert(a@ =~= b@);
    true
}

/// Copies `s[lo..hi]` into a fresh vector.
pub fn copy_range(s: &[u8], lo: usize, hi: usize) -> (v: Vec<u8>)
    requires
        lo <= hi <= s@.len(),
    ensures
        v@ == s@.subrange(lo as int, hi as int),
{
    let mut v: Vec<u8> = Vec::new();
    let mut i: usize = lo;
    while i < hi
        invariant
            lo <= i <= hi <= s@.len(),
            v@ == s@.subrange(lo as int, i as int),
        decreases hi - i,
    {
        v.push(s[i]);
        assert(v@ =~= s@.subrange(lo as int, (i + 1) as int));
        i = i + 1;
    }
    v
}

/// Executable twin of `is_ws`.
pub fn is_ws_byte(b: u8) -> (r: bool)
    ensures
        r == is_ws(b),
{
    b == 9 || b == 10 || b == 11 || b == 12 || b == 13 || b == 32
}

/// Copies `s[lo..hi]` without its surrounding whitespace.
pub fn trim_copy(s: &[u8], lo: usize, hi: usize) -> (v: Vec<u8>)
    requires
        lo <= hi <= s@.len(),
    ensures
        v@ == trimmed(s@, lo as int, hi as int),
{
    let mut f: usize = lo;
    while f < hi && is_ws_byte(s[f])
        invariant
            lo <= f <= hi,
            hi <= s@.len(),
            skip_ws_fwd(s@, lo as int, hi as int) == skip_ws_fwd(s@, f as int, hi as int),
        decreases hi - f,
    {
        f = f + 1;
    }
    assert(skip_ws_fwd(s@, f as int, hi as int) == f);
    let mut b: usize = hi;
    while b > f && is_ws_byte(s[b - 1])
        invariant
            f <= b <= hi <= s@.len(),
            skip_ws_back(s@, f as int, hi as int) == skip_ws_back(s@, f as int, b as int),
        decreases b - f,
    {
        b = b - 1;
    }
    assert(skip_ws_back(s@, f as int, b as int) == b);
    copy_range(s, f, b)
}

/// If some digit prefix of the sign-stripped `body` of `s` already
/// exceeds `u64::MAX`, then `s` has no value within `u64::MAX` either.
proof fn overflow_means_none(s: Seq<u8>, body: Seq<u8>, n: int)
    requires
        body == (if s.len() > 0 && s[0] == 43 {
            s.subrange(1, s.len() as int)
        } else {
            s
        }),
        0 <= n <= body.len(),
        all_digits(body.take(n)),
        digits_val(body.take(n)) > u64::MAX as int,
    ensures
        dec_of(s, u64::MAX as int) is None,
{
    assert(digits_val(body.take(0)) == 0);
    assert(n >= 1);
    if all_digits(body) {
        lemma_digits_val_prefix(body, n);
        assert(body.take(body.len() as int) =~= body);
    }
}

/// Parses an unsigned decimal number (optional leading `+`), failing on
/// empty or non-digit input and on values above `u64::MAX`.
pub fn parse_u64_dec(s: &[u8]) -> (r: Option<u64>)
    ensures
        match r {
            Some(v) => dec_of(s@, u64::MAX as int) == Some(v as int),
            None => dec_of(s@, u64::MAX as int) is None,
        },
{
    let start: usize = if s.len() > 0 && s[0] == 43 {
        1
    } else {
        0
    };
    let ghost body = if s@.len() > 0 && s@[0] == 43 {
        s@.subrange(1, s@.len() as int)
    } else {
        s@
    };
    assert(body =~= s@.subrange(start as int, s@.len() as int));
    if s.len() == start {
        return None;
    }
    let mut acc: u64 = 0;
    let mut i: usize = start;
    while i < s.len()
        invariant
            start <= i <= s@.len(),
            start < s@.len(),
            body == s@.subrange(start as int, s@.len() as int),
            body == (if s@.len() > 0 && s@[0] == 43 {
                s@.subrange(1, s@.len() as int)
            } else {
                s@
            }),
            all_digits(body.take((i - start) as int)),
            acc as int == digits_val(body.take((i - start) as int)),
        decreases s@.len() - i,
    {
        let c = s[i];
        assert(body[(i - start) as int] == c);
        if !(48 <= c && c <= 57) {
            proof {
                assert(!is_digit(body[(i - start) as int]));
                assert(!all_digits(body));
                assert(dec_of(s@, u64::MAX as int) is None);
            }
            return None;
        }
        let d: u64 = (c - 48) as u64;
        proof {
            let n = (i - start + 1) as int;
            assert(body.take(n).drop_last() =~= body.take(n - 1));
            assert(forall|k: int| 0 <= k < n ==> body.take(n)[k] == #[trigger] body[k]);
            assert(all_digits(body.take(n)));
            assert(digits_val(body.take(n)) == acc as int * 10 + d);
        }
        let m = match acc.checked_mul(10) {
            Some(m) => m,
            None => {
                proof {
                    lemma_digits_val_nonneg(body.take((i - start) as int));
                    overflow_means_none(s@, body, (i - start + 1) as int);
                }
                return None;
            },
        };
        let a = match m.checked_add(d) {
            Some(a) => a,
            None => {
                proof {
                    overflow_means_none(s@, body, (i - start + 1) as int);
                }
                return None;
            },
        };
        acc = a;
        i = i + 1;
    }
    assert(body.take((i - start) as int) =~= body);
    Some(acc)
}

/// Parses a decimal number that must fit in `usize`.
pub fn parse_usize_dec(s: &[u8]) -> (r: Option<usize>)
    ensures
        match r {
            Some(v) => dec_of(s@, usize::MAX as int) == Some(v as int),
            None => dec_of(s@, usize::MAX as int) is None,
        },
{
    match parse_u64_dec(s) {
        Some(v) => {
            if v <= usize::MAX as u64 {
                Some(v as usize)
            } else {
                None
            }
        },
        None => None,
    }
}

/// Appends the decimal digits of `n` to `out`.
pub fn push_u64_dec(n: u64, out: &mut Vec<u8>)
    ensures
        final(out)@ == old(out)@ + dec_digits(n as int),
    decreases n,
{
    if n < 10 {
        out.push((n as u8) + 48);
        assert(out@ =~= old(out)@ + dec_digits(n as int));
    } else {
        assert(n as int / 10 < n as int && n as int / 10 >= 0) by (nonlinear_arith)
            requires
                n >= 10,
        ;
        push_u64_dec(n / 10, out);
        out.push(((n % 10) as u8) + 48);
        assert(out@ =~= old(out)@ + dec_digits(n as int));
    }
}

/// The decimal digit string of `n`, most significant digit first.
pub fn u64_to_dec(n: u64) -> (v: Vec<u8>)
    ensures
        v@ == dec_digits(n as int),
{
    let mut v: Vec<u8> = Vec::new();
    push_u64_dec(n, &mut v);
    assert(v@ =~= dec_digits(n as int));
    v
}

/// True when `v` holds `x`.
pub fn contains_u64(v: &Vec<u64>, x: u64) -> (r: bool)
    ensures
        r <==> v@.contains(x),
{
    let mut i: usize = 0;
    while i < v.len()
        invariant
            0 <= i <= v@.len(),
            forall|k: int| 0 <= k < i ==> v@[k] != x,
        decreases v@.len() - i,
    {
        if v[i] == x {
            assert(v@.contains(x));
            return true;
        }
        i = i + 1;
    }
    assert(!v@.contains(x));
    false
}

} // verus!
