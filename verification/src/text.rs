//! Byte-string utilities shared by the parser, resolver and handlers.
//!
//! All request, configuration and response text is handled as byte
//! sequences; these helpers give the exact searching, trimming and
//! number-formatting primitives the rest of the crate is specified with.
use vstd::prelude::*;
use vstd::slice::slice_subrange;
use vstd::string::StrSliceExecFns;
use vstd::string::StringSliceAdditionalSpecFns;

verus! {

/// The bytes of an ASCII character sequence, one byte per character.
pub open spec fn ascii_seq(s: Seq<char>) -> Seq<u8> {
    Seq::new(s.len(), |i: int| s[i] as u8)
}

/// The UTF-8 bytes of a string slice, as a `Vec`.
pub fn str_bytes(s: &str) -> (r: Vec<u8>)
    ensures
        r@ == s.spec_bytes(),
{
    s.as_bytes_vec()
}

/// For ASCII strings the UTF-8 bytes are the characters themselves.
pub proof fn lemma_ascii_str_bytes(s: &str)
    requires
        vstd::string::is_ascii(s),
    ensures
        s.spec_bytes() == ascii_seq(s@),
{
    vstd::string::is_ascii_spec_bytes(s);
    assert(s.spec_bytes() =~= ascii_seq(s@));
}

/// Exact byte-wise equality of two slices.
pub fn bytes_eq(a: &[u8], b: &[u8]) -> (r: bool)
    ensures
        r == (a@ == b@),
{
    if a.len() != b.len() {
        return false;
    }
    let mut i: usize = 0;
    while i < a.len()
        invariant
            i <= a@.len(),
            a@.len() == b@.len(),
            forall|j: int| 0 <= j < i ==> a@[j] == b@[j],
        decreases a@.len() - i,
    {
        if a[i] != b[i] {
            return false;
        }
        i += 1;
    }
    proof {
        assert(a@ =~= b@);
    }
    true
}

/// `p` is an initial segment of `s`.
pub open spec fn is_prefix(p: Seq<u8>, s: Seq<u8>) -> bool {
    p.len() <= s.len() && s.subrange(0, p.len() as int) == p
}

/// `p` is a final segment of `s`.
pub open spec fn is_suffix(p: Seq<u8>, s: Seq<u8>) -> bool {
    p.len() <= s.len() && s.subrange(s.len() - p.len(), s.len() as int) == p
}

pub fn starts_with(s: &[u8], p: &[u8]) -> (r: bool)
    ensures
        r == is_prefix(p@, s@),
{
    if p.len() > s.len() {
        false
    } else {
        let head = slice_subrange(s, 0, p.len());
        bytes_eq(head, p)
    }
}

pub fn ends_with(s: &[u8], p: &[u8]) -> (r: bool)
    ensures
        r == is_suffix(p@, s@),
{
    if p.len() > s.len() {
        false
    } else {
        let tail = slice_subrange(s, s.len() - p.len(), s.len());
        bytes_eq(tail, p)
    }
}

/// Position of the first occurrence of `b` in `s`, if any.
pub open spec fn find_first(s: Seq<u8>, b: u8) -> Option<int>
    decreases s.len(),
{
    if s.len() == 0 {
        None
    } else if s[0] == b {
        Some(0)
    } else {
        match find_first(s.drop_first(), b) {
            Some(i) => Some(i + 1),
            None => None,
        }
    }
}

/// What `find_first` returns: the least index holding `b`, or `None`.
pub proof fn lemma_find_first(s: Seq<u8>, b: u8)
    ensures
        match find_first(s, b) {
            Some(i) => 0 <= i < s.len() && s[i] == b && forall|j: int| 0 <= j < i ==> s[j] != b,
            None => forall|j: int| 0 <= j < s.len() ==> s[j] != b,
        },
    decreases s.len(),
{
    if s.len() > 0 && s[0] != b {
        let t = s.drop_first();
        lemma_find_first(t, b);
        assert forall|j: int| 1 <= j < s.len() implies s[j] == t[j - 1] by {
        }
        match find_first(t, b) {
            Some(i) => {
                assert(s[i + 1] == t[i]);
                assert forall|j: int| 0 <= j < i + 1 implies s[j] != b by {
                    if j > 0 {
                        assert(s[j] == t[j - 1]);
                    }
                }
            },
            None => {
                assert forall|j: int| 0 <= j < s.len() implies s[j] != b by {
                    if j > 0 {
                        assert(s[j] == t[j - 1]);
                    }
                }
            },
        }
    }
}

pub fn find_byte(s: &[u8], b: u8) -> (r: Option<usize>)
    ensures
        match r {
            Some(i) => find_first(s@, b) == Some(i as int),
            None => find_first(s@, b) is None,
        },
{
    proof {
        lemma_find_first(s@, b);
    }
    let mut i: usize = 0;
    while i < s.len()
        invariant
            i <= s@.len(),
            forall|j: int| 0 <= j < i ==> s@[j] != b,
            match find_first(s@, b) {
                Some(k) => 0 <= k < s@.len() && s@[k] == b && forall|j: int| 0 <= j < k ==> s@[j] != b,
                None => forall|j: int| 0 <= j < s@.len() ==> s@[j] != b,
            },
        decreases s@.len() - i,
    {
        if s[i] == b {
            proof {
                if find_first(s@, b) is None {
                    assert(false);
                }
                let k = find_first(s@, b)->Some_0;
                if k < i {
                    assert(s@[k] != b);
                }
                if k > i {
                    assert(s@[i as int] != b);
                }
            }
            return Some(i);
        }
        i += 1;
    }
    proof {
        if find_first(s@, b) is Some {
            let k = find_first(s@, b)->Some_0;
            assert(s@[k] != b);
        }
    }
    None
}

/// `p` occurs in `s` at position `i`.
pub open spec fn matches_at(s: Seq<u8>, p: Seq<u8>, i: int) -> bool {
    0 <= i && i + p.len() <= s.len() && s.subrange(i, i + p.len()) == p
}

/// First position at or after `i` where `p` occurs in `s`.
pub open spec fn first_match_from(s: Seq<u8>, p: Seq<u8>, i: int) -> Option<int>
    decreases s.len() - i + 1,
{
    if i < 0 || i + p.len() > s.len() {
        None
    } else if s.subrange(i, i + p.len()) == p {
        Some(i)
    } else {
        first_match_from(s, p, i + 1)
    }
}

/// Last position at or before `i` where `p` occurs in `s`.
pub open spec fn last_match_upto(s: Seq<u8>, p: Seq<u8>, i: int) -> Option<int>
    decreases i + 1,
{
    if i < 0 {
        None
    } else if i + p.len() <= s.len() && s.subrange(i, i + p.len()) == p {
        Some(i)
    } else {
        last_match_upto(s, p, i - 1)
    }
}

/// A least position holding `b` determines `find_first`.
pub proof fn lemma_find_first_is(s: Seq<u8>, b: u8, i: int)
    requires
        0 <= i < s.len(),
        s[i] == b,
        forall|j: int| 0 <= j < i ==> s[j] != b,
    ensures
        find_first(s, b) == Some(i),
    decreases s.len(),
{
    if i > 0 {
        let t = s.drop_first();
        assert(forall|j: int| 1 <= j < s.len() ==> s[j] == t[j - 1]);
        assert(s[0] != b);
        lemma_find_first_is(t, b, i - 1);
    }
}

/// A found first match is a match, and nothing earlier matches.
pub proof fn lemma_first_match_from(s: Seq<u8>, p: Seq<u8>, i: int)
    requires
        0 <= i,
    ensures
        match first_match_from(s, p, i) {
            Some(j) => i <= j && matches_at(s, p, j) && forall|k: int|
                i <= k < j ==> !matches_at(s, p, k),
            None => forall|k: int| i <= k ==> !matches_at(s, p, k),
        },
    decreases s.len() - i + 1,
{
    if i + p.len() > s.len() {
    } else if s.subrange(i, i + p.len()) == p {
    } else {
        lemma_first_match_from(s, p, i + 1);
    }
}

/// A found last match is a match, and nothing later (up to the bound)
/// matches.
pub proof fn lemma_last_match_upto(s: Seq<u8>, p: Seq<u8>, i: int)
    ensures
        match last_match_upto(s, p, i) {
            Some(j) => 0 <= j <= i && matches_at(s, p, j) && forall|k: int|
                j < k <= i ==> !matches_at(s, p, k),
            None => forall|k: int| 0 <= k <= i ==> !matches_at(s, p, k),
        },
    decreases i + 1,
{
    if i >= 0 && !(i + p.len() <= s.len() && s.subrange(i, i + p.len()) == p) {
        lemma_last_match_upto(s, p, i - 1);
    }
}

/// First occurrence of `p` in `s`.
pub fn find_sub(s: &[u8], p: &[u8]) -> (r: Option<usize>)
    ensures
        match r {
            Some(i) => first_match_from(s@, p@, 0) == Some(i as int),
            None => first_match_from(s@, p@, 0) is None,
        },
{
    if p.len() > s.len() {
        return None;
    }
    let last = s.len() - p.len();
    let mut i: usize = 0;
    loop
        invariant
            0 <= i <= last + 1,
            p@.len() <= s@.len(),
            s@.len() <= usize::MAX,
            last == s@.len() - p@.len(),
            first_match_from(s@, p@, 0) == first_match_from(s@, p@, i as int),
        decreases last + 1 - i,
    {
        if i > last {
            return None;
        }
        let w = slice_subrange(s, i, i + p.len());
        if bytes_eq(w, p) {
            return Some(i);
        }
        proof {
            if p@.len() == 0 {
                assert(w@ =~= p@);
            }
            assert(first_match_from(s@, p@, i as int) == first_match_from(s@, p@, i + 1));
        }
        i += 1;
    }
}

/// Last occurrence of `p` in `s`.
pub fn rfind_sub(s: &[u8], p: &[u8]) -> (r: Option<usize>)
    ensures
        match r {
            Some(i) => last_match_upto(s@, p@, s@.len() as int) == Some(i as int),
            None => last_match_upto(s@, p@, s@.len() as int) is None,
        },
{
    let mut i: usize = s.len();
    loop
        invariant
            0 <= i <= s@.len(),
            last_match_upto(s@, p@, s@.len() as int) == last_match_upto(s@, p@, i as int),
        decreases i + 1,
    {
        if p.len() <= s.len() && i <= s.len() - p.len() {
            let w = slice_subrange(s, i, i + p.len());
            if bytes_eq(w, p) {
                return Some(i);
            }
        }
        proof {
            assert(last_match_upto(s@, p@, i as int) == last_match_upto(s@, p@, i - 1));
        }
        if i == 0 {
            proof {
                assert(last_match_upto(s@, p@, 0) == last_match_upto(s@, p@, -1));
            }
            return None;
        }
        i -= 1;
    }
}

/// ASCII whitespace, the bytes `str::trim` removes from ASCII text.
pub open spec fn is_ws(b: u8) -> bool {
    b == 9 || b == 10 || b == 11 || b == 12 || b == 13 || b == 32
}

pub fn is_ws_byte(b: u8) -> (r: bool)
    ensures
        r == is_ws(b),
{
    b == 9 || b == 10 || b == 11 || b == 12 || b == 13 || b == 32
}

/// Length of the longest run of bytes satisfying `drop_b`-style whitespace at the front.
pub open spec fn ws_prefix_len(s: Seq<u8>) -> int
    decreases s.len(),
{
    if s.len() > 0 && is_ws(s[0]) {
        1 + ws_prefix_len(s.drop_first())
    } else {
        0
    }
}

pub open spec fn ws_suffix_len(s: Seq<u8>) -> int
    decreases s.len(),
{
    if s.len() > 0 && is_ws(s[s.len() - 1]) {
        1 + ws_suffix_len(s.drop_last())
    } else {
        0
    }
}

/// `s` with leading and trailing ASCII whitespace removed.
pub open spec fn spec_trim(s: Seq<u8>) -> Seq<u8> {
    let t = s.skip(ws_prefix_len(s));
    t.take(t.len() - ws_suffix_len(t))
}

pub proof fn lemma_ws_prefix_len_bound(s: Seq<u8>)
    ensures
        0 <= ws_prefix_len(s) <= s.len(),
    decreases s.len(),
{
    if s.len() > 0 && is_ws(s[0]) {
        lemma_ws_prefix_len_bound(s.drop_first());
    }
}

pub proof fn lemma_ws_suffix_len_bound(s: Seq<u8>)
    ensures
        0 <= ws_suffix_len(s) <= s.len(),
    decreases s.len(),
{
    if s.len() > 0 && is_ws(s[s.len() - 1]) {
        lemma_ws_suffix_len_bound(s.drop_last());
    }
}

pub proof fn lemma_byte_prefix_len_bound(s: Seq<u8>, c: u8)
    ensures
        0 <= byte_prefix_len(s, c) <= s.len(),
    decreases s.len(),
{
    if s.len() > 0 && s[0] == c {
        lemma_byte_prefix_len_bound(s.drop_first(), c);
    }
}

pub proof fn lemma_byte_suffix_len_bound(s: Seq<u8>, c: u8)
    ensures
        0 <= byte_suffix_len(s, c) <= s.len(),
    decreases s.len(),
{
    if s.len() > 0 && s[s.len() - 1] == c {
        lemma_byte_suffix_len_bound(s.drop_last(), c);
    }
}

pub fn trim_start(s: &[u8]) -> (r: &[u8])
    ensures
        r@ == s@.skip(ws_prefix_len(s@)),
        ws_prefix_len(r@) == 0,
    decreases s@.len(),
{
    if s.len() > 0 && is_ws_byte(s[0]) {
        let t = slice_subrange(s, 1, s.len());
        proof {
            assert(t@ == s@.drop_first());
        }
        let r = trim_start(t);
        proof {
            lemma_ws_prefix_len_bound(t@);
            assert(ws_prefix_len(s@) == 1 + ws_prefix_len(t@));
            assert(r@ =~= s@.skip(ws_prefix_len(s@)));
        }
        r
    } else {
        proof {
            assert(s@.skip(0) =~= s@);
        }
        s
    }
}

pub fn trim_end(s: &[u8]) -> (r: &[u8])
    ensures
        r@ == s@.take(s@.len() - ws_suffix_len(s@)),
        ws_suffix_len(r@) == 0,
    decreases s@.len(),
{
    if s.len() > 0 && is_ws_byte(s[s.len() - 1]) {
        let t = slice_subrange(s, 0, s.len() - 1);
        proof {
            assert(t@ == s@.drop_last());
        }
        let r = trim_end(t);
        proof {
            lemma_ws_suffix_len_bound(t@);
            assert(ws_suffix_len(s@) == 1 + ws_suffix_len(t@));
            assert(r@ =~= s@.take(s@.len() - ws_suffix_len(s@)));
        }
        r
    } else {
        proof {
            assert(s@.take(s@.len() as int) =~= s@);
        }
        s
    }
}

pub fn trim(s: &[u8]) -> (r: &[u8])
    ensures
        r@ == spec_trim(s@),
{
    trim_end(trim_start(s))
}

/// Length of the run of byte `c` at the front of `s`.
pub open spec fn byte_prefix_len(s: Seq<u8>, c: u8) -> int
    decreases s.len(),
{
    if s.len() > 0 && s[0] == c {
        1 + byte_prefix_len(s.drop_first(), c)
    } else {
        0
    }
}

pub open spec fn byte_suffix_len(s: Seq<u8>, c: u8) -> int
    decreases s.len(),
{
    if s.len() > 0 && s[s.len() - 1] == c {
        1 + byte_suffix_len(s.drop_last(), c)
    } else {
        0
    }
}

/// `s` without its leading run of byte `c`, as `str::trim_start_matches`.
pub fn trim_start_matches_byte(s: &[u8], c: u8) -> (r: &[u8])
    ensures
        r@ == s@.skip(byte_prefix_len(s@, c)),
        byte_prefix_len(r@, c) == 0,
    decreases s@.len(),
{
    if s.len() > 0 && s[0] == c {
        let t = slice_subrange(s, 1, s.len());
        proof {
            assert(t@ == s@.drop_first());
        }
        let r = trim_start_matches_byte(t, c);
        proof {
            lemma_byte_prefix_len_bound(t@, c);
            assert(byte_prefix_len(s@, c) == 1 + byte_prefix_len(t@, c));
            assert(r@ =~= s@.skip(byte_prefix_len(s@, c)));
        }
        r
    } else {
        proof {
            assert(s@.skip(0) =~= s@);
        }
        s
    }
}

pub fn trim_end_matches_byte(s: &[u8], c: u8) -> (r: &[u8])
    ensures
        r@ == s@.take(s@.len() - byte_suffix_len(s@, c)),
        byte_suffix_len(r@, c) == 0,
    decreases s@.len(),
{
    if s.len() > 0 && s[s.len() - 1] == c {
        let t = slice_subrange(s, 0, s.len() - 1);
        proof {
            assert(t@ == s@.drop_last());
        }
        let r = trim_end_matches_byte(t, c);
        proof {
            lemma_byte_suffix_len_bound(t@, c);
            assert(byte_suffix_len(s@, c) == 1 + byte_suffix_len(t@, c));
            assert(r@ =~= s@.take(s@.len() - byte_suffix_len(s@, c)));
        }
        r
    } else {
        proof {
            assert(s@.take(s@.len() as int) =~= s@);
        }
        s
    }
}

/// `s` without leading and trailing runs of byte `c`, as `str::trim_matches`.
pub open spec fn spec_trim_matches(s: Seq<u8>, c: u8) -> Seq<u8> {
    let t = s.skip(byte_prefix_len(s, c));
    t.take(t.len() - byte_suffix_len(t, c))
}

pub fn trim_matches_byte(s: &[u8], c: u8) -> (r: &[u8])
    ensures
        r@ == spec_trim_matches(s@, c),
{
    trim_end_matches_byte(trim_start_matches_byte(s, c), c)
}

/// ASCII lowercasing of one byte.
pub open spec fn lower_byte(b: u8) -> u8 {
    if 65 <= b <= 90 {
        (b + 32) as u8
    } else {
        b
    }
}

/// ASCII lowercasing of a byte sequence.
pub open spec fn spec_lower(s: Seq<u8>) -> Seq<u8> {
    Seq::new(s.len(), |i: int| lower_byte(s[i]))
}

pub fn to_lower(s: &[u8]) -> (r: Vec<u8>)
    ensures
        r@ == spec_lower(s@),
{
    let mut r: Vec<u8> = Vec::new();
    let mut i: usize = 0;
    while i < s.len()
        invariant
            i <= s@.len(),
            r@.len() == i,
            forall|j: int| 0 <= j < i ==> r@[j] == lower_byte(s@[j]),
        decreases s@.len() - i,
    {
        let b = s[i];
        if 65 <= b && b <= 90 {
            r.push(b + 32);
        } else {
            r.push(b);
        }
        i += 1;
    }
    proof {
        assert(r@ =~= spec_lower(s@));
    }
    r
}

/// ASCII decimal digit.
pub open spec fn is_digit(b: u8) -> bool {
    48 <= b <= 57
}

pub open spec fn all_digits(s: Seq<u8>) -> bool {
    forall|i: int| 0 <= i < s.len() ==> is_digit(s[i])
}

/// Value of a digit string, most significant digit first.
pub open spec fn dec_value(s: Seq<u8>) -> nat
    decreases s.len(),
{
    if s.len() == 0 {
        0
    } else {
        dec_value(s.drop_last()) * 10 + (if s[s.len() - 1] >= 48 {
            (s[s.len() - 1] - 48) as nat
        } else {
            0
        })
    }
}

/// The digits of an unsigned decimal literal: an optional leading `+` is allowed.
pub open spec fn digits_part(s: Seq<u8>) -> Seq<u8> {
    if s.len() > 0 && s[0] == 43 {
        s.drop_first()
    } else {
        s
    }
}

/// The grammar `str::parse` accepts for unsigned integers.
pub open spec fn is_valid_uint(s: Seq<u8>) -> bool {
    digits_part(s).len() > 0 && all_digits(digits_part(s))
}

/// Appending digits never decreases the value of a digit string.
pub proof fn lemma_dec_value_take_le(s: Seq<u8>, k: int)
    requires
        0 <= k <= s.len(),
    ensures
        dec_value(s.take(k)) <= dec_value(s),
    decreases s.len() - k,
{
    if k < s.len() {
        lemma_dec_value_take_le(s, k + 1);
        let t = s.take(k + 1);
        assert(t.drop_last() =~= s.take(k));
        assert(dec_value(t) == dec_value(s.take(k)) * 10 + (if t[k] >= 48 {
            (t[k] - 48) as nat
        } else {
            0
        }));
        assert(dec_value(s.take(k)) * 10 >= dec_value(s.take(k))) by (nonlinear_arith);
    } else {
        assert(s.take(k) =~= s);
    }
}

/// Parse an unsigned decimal as `str::parse::<usize>` does: an optional
/// `+`, then one or more digits, rejecting values above `usize::MAX`.
pub fn parse_usize(s: &[u8]) -> (r: Option<usize>)
    ensures
        match r {
            Some(v) => is_valid_uint(s@) && v == dec_value(digits_part(s@)),
            None => !is_valid_uint(s@) || dec_value(digits_part(s@)) > usize::MAX,
        },
{
    let digits: &[u8] = if s.len() > 0 && s[0] == 43 {
        slice_subrange(s, 1, s.len())
    } else {
        s
    };
    proof {
        assert(digits@ =~= digits_part(s@));
    }
    if digits.len() == 0 {
        return None;
    }
    let mut v: usize = 0;
    let mut i: usize = 0;
    while i < digits.len()
        invariant
            i <= digits@.len(),
            digits@ == digits_part(s@),
            digits@.len() > 0,
            all_digits(digits@.take(i as int)),
            v == dec_value(digits@.take(i as int)),
        decreases digits@.len() - i,
    {
        let b = digits[i];
        if b < 48 || b > 57 {
            return None;
        }
        let d = (b - 48) as usize;
        if v > (usize::MAX - d) / 10 {
            proof {
                assert(v * 10 + d > usize::MAX) by (nonlinear_arith)
                    requires
                        v > (usize::MAX - d) / 10,
                        d <= 9,
                ;
                lemma_dec_value_take_le(digits@, i + 1);
                assert(digits@.take(i + 1).drop_last() =~= digits@.take(i as int));
                assert(dec_value(digits@.take(i + 1)) == v * 10 + d);
            }
            return None;
        }
        proof {
            assert(v * 10 + d <= usize::MAX) by (nonlinear_arith)
                requires
                    v <= (usize::MAX - d) / 10,
                    d <= 9,
            ;
            assert(digits@.take(i + 1).drop_last() =~= digits@.take(i as int));
        }
        v = v * 10 + d;
        i += 1;
    }
    proof {
        assert(digits@.take(digits@.len() as int) =~= digits@);
    }
    Some(v)
}

/// Decimal representation of `n`, no sign, no leading zeros.
pub open spec fn dec_repr(n: nat) -> Seq<u8>
    decreases n,
{
    if n < 10 {
        seq![(48 + n) as u8]
    } else {
        dec_repr(n / 10).push((48 + n % 10) as u8)
    }
}

pub fn usize_to_dec(n: usize) -> (r: Vec<u8>)
    ensures
        r@ == dec_repr(n as nat),
    decreases n,
{
    if n < 10 {
        let mut v: Vec<u8> = Vec::new();
        v.push(48 + n as u8);
        proof {
            assert(v@ =~= dec_repr(n as nat));
        }
        v
    } else {
        let mut v = usize_to_dec(n / 10);
        v.push(48 + (n % 10) as u8);
        v
    }
}

/// Reading back a decimal representation gives the number itself.
pub proof fn lemma_dec_repr_value(n: nat)
    ensures
        dec_repr(n).len() > 0,
        all_digits(dec_repr(n)),
        dec_repr(n)[0] != 43,
        dec_value(dec_repr(n)) == n,
    decreases n,
{
    if n < 10 {
        let r = dec_repr(n);
        assert(r =~= seq![(48 + n) as u8]);
        assert(r.drop_last() =~= Seq::<u8>::empty());
        assert(dec_value(Seq::<u8>::empty()) == 0);
        assert(dec_value(r) == n);
    } else {
        lemma_dec_repr_value(n / 10);
        let r = dec_repr(n);
        assert(r.drop_last() =~= dec_repr(n / 10));
        assert(dec_value(r) == (n / 10) * 10 + n % 10);
        assert((n / 10) * 10 + n % 10 == n) by (nonlinear_arith);
        assert forall|i: int| 0 <= i < r.len() implies is_digit(r[i]) by {
            if i < r.len() - 1 {
                assert(r[i] == dec_repr(n / 10)[i]);
            }
        }
    }
}

} // verus!
