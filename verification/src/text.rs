//! Byte-level text helpers shared by the instruction and configuration
//! parsers: whitespace trimming, decimal and hexadecimal numerals, and
//! searching, each as a spec function over byte sequences with a
//! matching executable form over index windows.

use vstd::prelude::*;

verus! {

/// ASCII whitespace as the parsers treat it.
pub open spec fn is_space(b: u8) -> bool {
    b == 32 || b == 9 || b == 13 || b == 10
}

/// ASCII decimal digit.
pub open spec fn is_digit(b: u8) -> bool {
    48 <= b <= 57
}

/// ASCII hexadecimal digit, either case.
pub open spec fn is_hex_digit(b: u8) -> bool {
    is_digit(b) || (97 <= b <= 102) || (65 <= b <= 70)
}

/// The value of one hexadecimal digit.
pub open spec fn hex_digit_val(b: u8) -> int {
    if is_digit(b) {
        b - 48
    } else if 97 <= b <= 102 {
        b - 87
    } else {
        b - 55
    }
}

/// The first position in [i, hi) holding a byte other than ASCII
/// whitespace, or `hi`.
pub open spec fn skip_spaces(s: Seq<u8>, i: int, hi: int) -> int
    decreases hi - i,
{
    if i < hi && 0 <= i < s.len() && is_space(s[i]) {
        skip_spaces(s, i + 1, hi)
    } else {
        i
    }
}

/// The end of the window [lo, j) with trailing ASCII whitespace dropped.
pub open spec fn rtrim(s: Seq<u8>, lo: int, j: int) -> int
    decreases j - lo,
{
    if lo < j && 0 <= j - 1 < s.len() && is_space(s[j - 1]) {
        rtrim(s, lo, j - 1)
    } else {
        j
    }
}

/// The first position in [i, hi) holding a byte other than `c`, or `hi`.
pub open spec fn skip_byte(s: Seq<u8>, i: int, hi: int, c: u8) -> int
    decreases hi - i,
{
    if i < hi && 0 <= i < s.len() && s[i] == c {
        skip_byte(s, i + 1, hi, c)
    } else {
        i
    }
}

/// The first position of `c` in [i, hi), or `hi`.
pub open spec fn find_byte(s: Seq<u8>, i: int, hi: int, c: u8) -> int
    decreases hi - i,
{
    if i < hi && 0 <= i < s.len() {
        if s[i] == c {
            i
        } else {
            find_byte(s, i + 1, hi, c)
        }
    } else {
        hi
    }
}

pub proof fn lemma_find_byte_bounds(s: Seq<u8>, i: int, hi: int, c: u8)
    requires
        i <= hi,
    ensures
        i <= find_byte(s, i, hi, c) <= hi,
    decreases hi - i,
{
    if i < hi && 0 <= i < s.len() && s[i] != c {
        lemma_find_byte_bounds(s, i + 1, hi, c);
    }
}

/// Where the first occurrence is known, `find_byte` finds it.
pub proof fn lemma_find_byte_at(s: Seq<u8>, i: int, hi: int, c: u8, p: int)
    requires
        0 <= i <= p < hi <= s.len(),
        s[p] == c,
        forall|k: int| i <= k < p ==> (#[trigger] s[k]) != c,
    ensures
        find_byte(s, i, hi, c) == p,
    decreases p - i,
{
    if i < p {
        lemma_find_byte_at(s, i + 1, hi, c, p);
    }
}

/// Where the byte does not occur, `find_byte` reports the window end.
pub proof fn lemma_find_byte_none(s: Seq<u8>, i: int, hi: int, c: u8)
    requires
        0 <= i <= hi <= s.len(),
        forall|k: int| i <= k < hi ==> (#[trigger] s[k]) != c,
    ensures
        find_byte(s, i, hi, c) == hi,
    decreases hi - i,
{
    if i < hi {
        lemma_find_byte_none(s, i + 1, hi, c);
    }
}

/// Where the first whitespace byte is known, `find_space` finds it.
pub proof fn lemma_find_space_at(s: Seq<u8>, i: int, hi: int, p: int)
    requires
        0 <= i <= p < hi <= s.len(),
        is_space(s[p]),
        forall|k: int| i <= k < p ==> !is_space(#[trigger] s[k]),
    ensures
        find_space(s, i, hi) == p,
    decreases p - i,
{
    if i < p {
        lemma_find_space_at(s, i + 1, hi, p);
    }
}

/// Where no whitespace occurs, `find_space` reports the window end.
pub proof fn lemma_find_space_none(s: Seq<u8>, i: int, hi: int)
    requires
        0 <= i <= hi <= s.len(),
        forall|k: int| i <= k < hi ==> !is_space(#[trigger] s[k]),
    ensures
        find_space(s, i, hi) == hi,
    decreases hi - i,
{
    if i < hi {
        lemma_find_space_none(s, i + 1, hi);
    }
}

/// Skipping over a known run of whitespace stops at the first byte that
/// is not whitespace.
pub proof fn lemma_skip_spaces_run(s: Seq<u8>, i: int, hi: int, p: int)
    requires
        0 <= i <= p < hi <= s.len(),
        !is_space(s[p]),
        forall|k: int| i <= k < p ==> is_space(#[trigger] s[k]),
    ensures
        skip_spaces(s, i, hi) == p,
    decreases p - i,
{
    if i < p {
        lemma_skip_spaces_run(s, i + 1, hi, p);
    }
}

/// The numeral value depends only on the window's bytes.
pub proof fn lemma_dec_val_window(s: Seq<u8>, t: Seq<u8>, slo: int, tlo: int, n: int)
    requires
        0 <= n,
        0 <= slo && slo + n <= s.len(),
        0 <= tlo && tlo + n <= t.len(),
        forall|k: int| 0 <= k < n ==> (#[trigger] s[slo + k]) == t[tlo + k],
    ensures
        dec_val(s, slo, slo + n) == dec_val(t, tlo, tlo + n),
    decreases n,
{
    if n > 0 {
        lemma_dec_val_window(s, t, slo, tlo, n - 1);
        assert(s[slo + (n - 1)] == t[tlo + (n - 1)]);
    }
}

/// Whether every byte of [lo, hi) is a decimal digit.
pub open spec fn all_digits(s: Seq<u8>, lo: int, hi: int) -> bool {
    forall|i: int| lo <= i < hi ==> is_digit(#[trigger] s[i])
}

/// Whether every byte of [lo, hi) is a hexadecimal digit.
pub open spec fn all_hex_digits(s: Seq<u8>, lo: int, hi: int) -> bool {
    forall|i: int| lo <= i < hi ==> is_hex_digit(#[trigger] s[i])
}

/// The value of the decimal numeral in [lo, hi).
pub open spec fn dec_val(s: Seq<u8>, lo: int, hi: int) -> int
    decreases hi - lo,
{
    if lo >= hi {
        0
    } else {
        dec_val(s, lo, hi - 1) * 10 + (s[hi - 1] - 48)
    }
}

/// The value of the hexadecimal numeral in [lo, hi).
pub open spec fn hex_val(s: Seq<u8>, lo: int, hi: int) -> int
    decreases hi - lo,
{
    if lo >= hi {
        0
    } else {
        hex_val(s, lo, hi - 1) * 16 + hex_digit_val(s[hi - 1])
    }
}

/// A non-empty all-digit window whose value fits in a u64 parses to that
/// value; everything else is rejected.
pub open spec fn parse_u64(s: Seq<u8>, lo: int, hi: int) -> Option<u64> {
    if lo < hi && all_digits(s, lo, hi) && dec_val(s, lo, hi) <= u64::MAX {
        Some(dec_val(s, lo, hi) as u64)
    } else {
        None
    }
}

/// As `parse_u64`, in base sixteen.
pub open spec fn parse_hex_u64(s: Seq<u8>, lo: int, hi: int) -> Option<u64> {
    if lo < hi && all_hex_digits(s, lo, hi) && hex_val(s, lo, hi) <= u64::MAX {
        Some(hex_val(s, lo, hi) as u64)
    } else {
        None
    }
}

pub proof fn lemma_dec_val_nonneg(s: Seq<u8>, lo: int, hi: int)
    requires
        all_digits(s, lo, hi),
        0 <= lo,
        hi <= s.len(),
    ensures
        dec_val(s, lo, hi) >= 0,
    decreases hi - lo,
{
    if lo < hi {
        lemma_dec_val_nonneg(s, lo, hi - 1);
    }
}

/// Extending a numeral to the right never shrinks its value.
pub proof fn lemma_dec_val_monotone(s: Seq<u8>, lo: int, i: int, hi: int)
    requires
        all_digits(s, lo, hi),
        0 <= lo <= i <= hi <= s.len(),
    ensures
        dec_val(s, lo, i) <= dec_val(s, lo, hi),
    decreases hi - i,
{
    if i < hi {
        lemma_dec_val_monotone(s, lo, i + 1, hi);
        lemma_dec_val_nonneg(s, lo, i);
    }
}

pub proof fn lemma_hex_val_nonneg(s: Seq<u8>, lo: int, hi: int)
    requires
        all_hex_digits(s, lo, hi),
        0 <= lo,
        hi <= s.len(),
    ensures
        hex_val(s, lo, hi) >= 0,
    decreases hi - lo,
{
    if lo < hi {
        lemma_hex_val_nonneg(s, lo, hi - 1);
    }
}

pub proof fn lemma_hex_val_monotone(s: Seq<u8>, lo: int, i: int, hi: int)
    requires
        all_hex_digits(s, lo, hi),
        0 <= lo <= i <= hi <= s.len(),
    ensures
        hex_val(s, lo, i) <= hex_val(s, lo, hi),
    decreases hi - i,
{
    if i < hi {
        lemma_hex_val_monotone(s, lo, i + 1, hi);
        lemma_hex_val_nonneg(s, lo, i);
    }
}

/// Executable form of `skip_spaces`.
#[verifier::loop_isolation(false)]
pub fn skip_spaces_exec(s: &[u8], i: usize, hi: usize) -> (r: usize)
    requires
        i <= hi <= s@.len(),
    ensures
        r as int == skip_spaces(s@, i as int, hi as int),
        i <= r <= hi,
{
    let mut j = i;
    while j < hi && (s[j] == 32 || s[j] == 9 || s[j] == 13 || s[j] == 10)
        invariant
            i <= j <= hi,
            skip_spaces(s@, i as int, hi as int) == skip_spaces(s@, j as int, hi as int),
        decreases hi - j,
    {
        j = j + 1;
    }
    j
}

/// Executable form of `rtrim`.
#[verifier::loop_isolation(false)]
pub fn rtrim_exec(s: &[u8], lo: usize, j: usize) -> (r: usize)
    requires
        lo <= j <= s@.len(),
    ensures
        r as int == rtrim(s@, lo as int, j as int),
        lo <= r <= j,
{
    let mut k = j;
    while k > lo && (s[k - 1] == 32 || s[k - 1] == 9 || s[k - 1] == 13 || s[k - 1] == 10)
        invariant
            lo <= k <= j,
            rtrim(s@, lo as int, j as int) == rtrim(s@, lo as int, k as int),
        decreases k,
    {
        k = k - 1;
    }
    k
}

/// Executable form of `skip_byte`.
#[verifier::loop_isolation(false)]
pub fn skip_byte_exec(s: &[u8], i: usize, hi: usize, c: u8) -> (r: usize)
    requires
        i <= hi <= s@.len(),
    ensures
        r as int == skip_byte(s@, i as int, hi as int, c as u8),
        i <= r <= hi,
{
    let mut j = i;
    while j < hi && s[j] == c
        invariant
            i <= j <= hi,
            skip_byte(s@, i as int, hi as int, c) == skip_byte(s@, j as int, hi as int, c),
        decreases hi - j,
    {
        j = j + 1;
    }
    j
}

/// Executable form of `find_byte`.
#[verifier::loop_isolation(false)]
pub fn find_byte_exec(s: &[u8], i: usize, hi: usize, c: u8) -> (r: usize)
    requires
        i <= hi <= s@.len(),
    ensures
        r as int == find_byte(s@, i as int, hi as int, c as u8),
        i <= r <= hi,
{
    let mut j = i;
    while j < hi && s[j] != c
        invariant
            i <= j <= hi,
            find_byte(s@, i as int, hi as int, c) == find_byte(s@, j as int, hi as int, c),
        decreases hi - j,
    {
        j = j + 1;
    }
    if j < hi {
        j
    } else {
        hi
    }
}

/// The first position in [i, hi) holding ASCII whitespace, or `hi`.
pub open spec fn find_space(s: Seq<u8>, i: int, hi: int) -> int
    decreases hi - i,
{
    if i < hi && 0 <= i < s.len() {
        if is_space(s[i]) {
            i
        } else {
            find_space(s, i + 1, hi)
        }
    } else {
        hi
    }
}

/// Executable form of `find_space`.
#[verifier::loop_isolation(false)]
pub fn find_space_exec(s: &[u8], i: usize, hi: usize) -> (r: usize)
    requires
        i <= hi <= s@.len(),
    ensures
        r as int == find_space(s@, i as int, hi as int),
        i <= r <= hi,
{
    let mut j = i;
    while j < hi && !(s[j] == 32 || s[j] == 9 || s[j] == 13 || s[j] == 10)
        invariant
            i <= j <= hi,
            find_space(s@, i as int, hi as int) == find_space(s@, j as int, hi as int),
        decreases hi - j,
    {
        j = j + 1;
    }
    if j < hi {
        j
    } else {
        hi
    }
}

/// Whether the window [lo, hi) holds exactly the given bytes.
pub open spec fn window_is(s: Seq<u8>, lo: int, hi: int, t: Seq<u8>) -> bool {
    s.subrange(lo, hi) == t
}

/// Executable form of `window_is`.
#[verifier::loop_isolation(false)]
pub fn window_eq(s: &[u8], lo: usize, hi: usize, t: &Vec<u8>) -> (r: bool)
    requires
        lo <= hi <= s@.len(),
    ensures
        r == window_is(s@, lo as int, hi as int, t@),
{
    if hi - lo != t.len() {
        proof {
            assert(s@.subrange(lo as int, hi as int).len() != t@.len());
        }
        return false;
    }
    let mut i: usize = 0;
    while i < t.len()
        invariant
            i <= t@.len(),
            hi - lo == t@.len(),
            forall|j: int| 0 <= j < i ==> s@[lo + j] == t@[j],
        decreases t@.len() - i,
    {
        if s[lo + i] != t[i] {
            proof {
                assert(s@.subrange(lo as int, hi as int)[i as int] != t@[i as int]);
            }
            return false;
        }
        i = i + 1;
    }
    proof {
        assert(s@.subrange(lo as int, hi as int) =~= t@);
    }
    true
}

/// Executable form of `parse_u64`.
#[verifier::loop_isolation(false)]
pub fn parse_u64_exec(s: &[u8], lo: usize, hi: usize) -> (r: Option<u64>)
    requires
        lo <= hi <= s@.len(),
    ensures
        r == parse_u64(s@, lo as int, hi as int),
{
    if lo >= hi {
        return None;
    }
    let mut val: u64 = 0;
    let mut i = lo;
    while i < hi
        invariant
            lo <= i <= hi,
            all_digits(s@, lo as int, i as int),
            val as int == dec_val(s@, lo as int, i as int),
        decreases hi - i,
    {
        let b = s[i];
        if !(48 <= b && b <= 57) {
            return None;
        }
        let d = b - 48;
        if val > 0xFFFFFFFFFFFFFFFF / 10 || (val == 0xFFFFFFFFFFFFFFFF / 10 && d > 5) {
            proof {
                assert(dec_val(s@, lo as int, i + 1) > u64::MAX);
                let ghost mid = i + 1;
                if all_digits(s@, lo as int, hi as int) {
                    lemma_dec_val_monotone(s@, lo as int, mid, hi as int);
                }
            }
            return None;
        }
        val = val * 10 + (d as u64);
        i = i + 1;
    }
    Some(val)
}

/// Executable form of `parse_hex_u64`.
#[verifier::loop_isolation(false)]
pub fn parse_hex_u64_exec(s: &[u8], lo: usize, hi: usize) -> (r: Option<u64>)
    requires
        lo <= hi <= s@.len(),
    ensures
        r == parse_hex_u64(s@, lo as int, hi as int),
{
    if lo >= hi {
        return None;
    }
    let mut val: u64 = 0;
    let mut i = lo;
    while i < hi
        invariant
            lo <= i <= hi,
            all_hex_digits(s@, lo as int, i as int),
            val as int == hex_val(s@, lo as int, i as int),
        decreases hi - i,
    {
        let b = s[i];
        let d: u8;
        if 48 <= b && b <= 57 {
            d = b - 48;
        } else if 97 <= b && b <= 102 {
            d = b - 87;
        } else if 65 <= b && b <= 70 {
            d = b - 55;
        } else {
            return None;
        }
        if val > 0xFFFFFFFFFFFFFFFF / 16 {
            proof {
                assert(hex_val(s@, lo as int, i + 1) > u64::MAX);
                let ghost mid = i + 1;
                if all_hex_digits(s@, lo as int, hi as int) {
                    lemma_hex_val_monotone(s@, lo as int, mid, hi as int);
                }
            }
            return None;
        }
        val = val * 16 + (d as u64);
        i = i + 1;
    }
    Some(val)
}

} // verus!
