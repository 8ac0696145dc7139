//! Byte strings, UTF-8 boundaries and the lexicographic order of suffixes.
use vstd::prelude::*;
use vstd::string::StringSliceAdditionalSpecFns;
use vstd::utf8::{
    encode_scalar, encode_utf8, group_utf8_lib, is_char_boundary, is_continuation_byte, valid_utf8,
};

verus! {

/// `i` is the start of a code point of `t`: an offset inside `t` whose byte
/// is not a continuation byte (`10xxxxxx`).
pub open spec fn is_boundary(t: Seq<u8>, i: int) -> bool {
    0 <= i < t.len() && !is_continuation_byte(t[i])
}

/// The bytes of `t` from offset `i` to its end.
pub open spec fn suffix(t: Seq<u8>, i: int) -> Seq<u8> {
    t.subrange(i, t.len() as int)
}

/// `q` is a prefix of `s`.
pub open spec fn is_prefix(q: Seq<u8>, s: Seq<u8>) -> bool {
    q.len() <= s.len() && s.subrange(0, q.len() as int) =~= q
}

/// `q` occurs in `t` at offset `p`.
pub open spec fn occurs_at(t: Seq<u8>, q: Seq<u8>, p: int) -> bool {
    0 <= p && p + q.len() <= t.len() && t.subrange(p, p + q.len()) =~= q
}

/// `k` is the length of the longest common prefix of `a` and `b`.
pub open spec fn first_diff(a: Seq<u8>, b: Seq<u8>, k: int) -> bool {
    &&& 0 <= k <= a.len()
    &&& k <= b.len()
    &&& forall|j: int| 0 <= j < k ==> a[j] == b[j]
    &&& (k == a.len() || k == b.len() || a[k] != b[k])
}

/// Strict lexicographic order on byte strings, as `<` on `[u8]`.
pub open spec fn lex_lt(a: Seq<u8>, b: Seq<u8>) -> bool {
    exists|k: int|
        #![trigger first_diff(a, b, k)]
        first_diff(a, b, k) && ((k == a.len() && k < b.len()) || (k < a.len() && k < b.len()
            && a[k] < b[k]))
}

/// Non-strict lexicographic order.
pub open spec fn lex_le(a: Seq<u8>, b: Seq<u8>) -> bool {
    lex_lt(a, b) || a == b
}

/// The entries of `sa` are ordered by the suffixes of `t` that start there.
pub open spec fn sorted_by_suffix(t: Seq<u8>, sa: Seq<u32>) -> bool {
    forall|i: int, j: int|
        0 <= i < j < sa.len() ==> lex_lt(suffix(t, sa[i] as int), suffix(t, sa[j] as int))
}

/// `x` is an entry of `sa`.
pub open spec fn has_entry(sa: Seq<u32>, x: int) -> bool {
    exists|i: int| 0 <= i < sa.len() && sa[i] == x
}

/// `sa` is the suffix array of `t`: every code-point start of `t` exactly
/// once, ordered by the suffix that starts there.
pub open spec fn is_suffix_array(t: Seq<u8>, sa: Seq<u32>) -> bool {
    &&& sorted_by_suffix(t, sa)
    &&& forall|i: int| 0 <= i < sa.len() ==> is_boundary(t, sa[i] as int)
    &&& forall|x: int| is_boundary(t, x) ==> has_entry(sa, x)
}

/// `i` is a code-point start of `t` or its end.
pub open spec fn is_stop(t: Seq<u8>, i: int) -> bool {
    i == t.len() || is_boundary(t, i)
}

/// The first offset from `i` on that is a code-point start or the end of `t`.
pub open spec fn next_stop(t: Seq<u8>, i: int) -> int
    decreases t.len() - i,
{
    if i >= t.len() {
        t.len() as int
    } else if is_boundary(t, i) {
        i
    } else {
        next_stop(t, i + 1)
    }
}

/// `p` occurs somewhere in `s`.
pub open spec fn is_substring(p: Seq<u8>, s: Seq<u8>) -> bool {
    exists|k: int| occurs_at(s, p, k)
}

/// The first offset from `i` on that is a code-point start or the end of `t`.
pub fn snap_to_stop(t: &[u8], i: usize) -> (r: usize)
    requires
        0 <= i <= t@.len(),
    ensures
        r == next_stop(t@, i as int),
        i <= r <= t@.len(),
        is_stop(t@, r as int),
        forall|j: int| i <= j < r ==> !is_stop(t@, j),
{
    let mut j = i;
    while j < t.len() && !is_leading_byte(t[j])
        invariant
            i <= j <= t@.len(),
            next_stop(t@, j as int) == next_stop(t@, i as int),
            forall|k: int| i <= k < j ==> !is_stop(t@, k),
        decreases t@.len() - j,
    {
        j = j + 1;
    }
    j
}

/// Whether `p` occurs somewhere in `s`, by trying each offset in turn.
pub fn occurs_in(s: &[u8], p: &[u8]) -> (r: bool)
    ensures
        r == is_substring(p@, s@),
{
    if p.len() > s.len() {
        return false;
    }
    let last = s.len() - p.len();
    let mut k: usize = 0;
    while k <= last
        invariant
            last == s@.len() - p@.len(),
            forall|j: int| 0 <= j < k ==> !occurs_at(s@, p@, j),
        decreases last + 1 - k,
    {
        let rest = &s[k..s.len()];
        if starts_with(rest, p) {
            proof {
                assert(rest@.subrange(0, p@.len() as int) =~= s@.subrange(k as int, k + p@.len()));
                assert(occurs_at(s@, p@, k as int));
            }
            return true;
        }
        proof {
            if occurs_at(s@, p@, k as int) {
                assert(rest@.subrange(0, p@.len() as int) =~= s@.subrange(k as int, k + p@.len()));
            }
        }
        k = k + 1;
    }
    false
}

/// The bytes of a `str` are valid UTF-8, so its code-point starts are the
/// offsets `str::is_char_boundary` accepts.
pub proof fn lemma_str_stop(s: &str, i: int)
    requires
        is_stop(s.spec_bytes(), i),
    ensures
        is_char_boundary(s.spec_bytes(), i),
        valid_utf8(s.spec_bytes()),
{
    broadcast use group_utf8_lib;

}

/// A `str` does not start inside a code point.
pub proof fn lemma_str_starts_at_stop(s: &str)
    ensures
        is_stop(s.spec_bytes(), 0),
{
    broadcast use group_utf8_lib;

    if s.spec_bytes().len() > 0 {
        assert(is_char_boundary(s.spec_bytes(), 0));
    }
}

/// The part of `s` between two code-point boundaries.
pub fn slice_str(s: &str, a: usize, b: usize) -> (r: &str)
    requires
        a <= b <= s.spec_bytes().len(),
        is_stop(s.spec_bytes(), a as int),
        is_stop(s.spec_bytes(), b as int),
    ensures
        r.spec_bytes() == s.spec_bytes().subrange(a as int, b as int),
{
    proof {
        lemma_str_stop(s, b as int);
    }
    let (head, _) = s.split_at(b);
    proof {
        if a < b {
            assert(head.spec_bytes()[a as int] == s.spec_bytes()[a as int]);
        }
        assert(is_stop(head.spec_bytes(), a as int));
        lemma_str_stop(head, a as int);
    }
    let (_, r) = head.split_at(a);
    proof {
        assert(r.spec_bytes() =~= s.spec_bytes().subrange(a as int, b as int));
    }
    r
}

/// The UTF-8 bytes of the character `c`.
pub open spec fn char_bytes(c: char) -> Seq<u8> {
    encode_scalar(c as u32)
}

/// The UTF-8 bytes of a one-character string are those of its character.
pub proof fn lemma_one_char_bytes(s: &str)
    requires
        s@.len() == 1,
    ensures
        s.spec_bytes() == char_bytes(s@[0]),
{
    reveal_with_fuel(encode_utf8, 2);
    assert(s@.drop_first() =~= Seq::<char>::empty());
    assert(s.spec_bytes() =~= char_bytes(s@[0]));
}

/// The UTF-8 bytes of `c`, one to four of them.
pub fn encode_char(c: char) -> (r: Vec<u8>)
    ensures
        r@ == char_bytes(c),
        1 <= r@.len() <= 4,
{
    let v = c as u32;
    let mut r: Vec<u8> = Vec::new();
    if v <= 0x7F {
        r.push((v & 0x7F) as u8);
    } else if v <= 0x7FF {
        r.push(0xC0 | ((v >> 6) & 0x1F) as u8);
        r.push(0x80 | (v & 0x3F) as u8);
    } else if v <= 0xFFFF {
        r.push(0xE0 | ((v >> 12) & 0x0F) as u8);
        r.push(0x80 | ((v >> 6) & 0x3F) as u8);
        r.push(0x80 | (v & 0x3F) as u8);
    } else {
        r.push(0xF0 | ((v >> 18) & 0x7) as u8);
        r.push(0x80 | ((v >> 12) & 0x3F) as u8);
        r.push(0x80 | ((v >> 6) & 0x3F) as u8);
        r.push(0x80 | (v & 0x3F) as u8);
    }
    proof {
        broadcast use group_utf8_lib;

        assert(!(0xD800 <= v <= 0xDFFF));
        assert(r@ =~= char_bytes(c));
    }
    r
}

/// Two byte strings have exactly one common-prefix length.
pub proof fn lemma_first_diff_unique(a: Seq<u8>, b: Seq<u8>, k1: int, k2: int)
    requires
        first_diff(a, b, k1),
        first_diff(a, b, k2),
    ensures
        k1 == k2,
{
    if k1 < k2 {
        assert(a[k1] == b[k1]);
    } else if k2 < k1 {
        assert(a[k2] == b[k2]);
    }
}

/// Every pair of byte strings has a common-prefix length.
pub proof fn lemma_first_diff_exists(a: Seq<u8>, b: Seq<u8>) -> (k: int)
    ensures
        first_diff(a, b, k),
    decreases a.len(),
{
    if a.len() == 0 || b.len() == 0 || a[0] != b[0] {
        0
    } else {
        let k0 = lemma_first_diff_exists(a.drop_first(), b.drop_first());
        assert forall|j: int| 0 <= j < k0 + 1 implies a[j] == b[j] by {
            if j > 0 {
                assert(a.drop_first()[j - 1] == b.drop_first()[j - 1]);
            }
        }
        k0 + 1
    }
}

/// Exactly one of `a < b`, `a == b`, `b < a` holds.
pub proof fn lemma_lex_trichotomy(a: Seq<u8>, b: Seq<u8>)
    ensures
        lex_lt(a, b) || a == b || lex_lt(b, a),
        !(lex_lt(a, b) && a == b),
        !(lex_lt(a, b) && lex_lt(b, a)),
        !(lex_lt(b, a) && a == b),
{
    let k = lemma_first_diff_exists(a, b);
    assert(first_diff(b, a, k));
    if lex_lt(a, b) {
        let k1 = choose|k1: int|
            first_diff(a, b, k1) && ((k1 == a.len() && k1 < b.len()) || (k1 < a.len() && k1
                < b.len() && a[k1] < b[k1]));
        lemma_first_diff_unique(a, b, k, k1);
    }
    if lex_lt(b, a) {
        let k2 = choose|k2: int|
            first_diff(b, a, k2) && ((k2 == b.len() && k2 < a.len()) || (k2 < b.len() && k2
                < a.len() && b[k2] < a[k2]));
        lemma_first_diff_unique(b, a, k, k2);
    }
    if !lex_lt(a, b) && !lex_lt(b, a) {
        assert(k == a.len() && k == b.len());
        assert(a =~= b);
    }
}

/// The lexicographic order is transitive.
pub proof fn lemma_lex_trans(a: Seq<u8>, b: Seq<u8>, c: Seq<u8>)
    requires
        lex_lt(a, b),
        lex_lt(b, c),
    ensures
        lex_lt(a, c),
{
    let k1 = choose|k1: int|
        first_diff(a, b, k1) && ((k1 == a.len() && k1 < b.len()) || (k1 < a.len() && k1 < b.len()
            && a[k1] < b[k1]));
    let k2 = choose|k2: int|
        first_diff(b, c, k2) && ((k2 == b.len() && k2 < c.len()) || (k2 < b.len() && k2 < c.len()
            && b[k2] < c[k2]));
    let k = if k1 < k2 {
        k1
    } else {
        k2
    };
    assert(first_diff(a, c, k));
}

/// Suffixes that start at different offsets differ.
pub proof fn lemma_suffixes_distinct(t: Seq<u8>, x: int, y: int)
    requires
        0 <= x <= t.len(),
        0 <= y <= t.len(),
        x != y,
    ensures
        lex_lt(suffix(t, x), suffix(t, y)) || lex_lt(suffix(t, y), suffix(t, x)),
{
    lemma_lex_trichotomy(suffix(t, x), suffix(t, y));
    assert(suffix(t, x).len() != suffix(t, y).len());
}

/// `q <= a < b` and `q` is a prefix of `b`: then `q` is a prefix of `a`.
pub proof fn lemma_prefix_between(q: Seq<u8>, a: Seq<u8>, b: Seq<u8>)
    requires
        lex_le(q, a),
        lex_lt(a, b),
        is_prefix(q, b),
    ensures
        is_prefix(q, a),
{
    let k = choose|k: int|
        first_diff(a, b, k) && ((k == a.len() && k < b.len()) || (k < a.len() && k < b.len()
            && a[k] < b[k]));
    if k < q.len() {
        assert(b[k] == q[k]);
        assert(first_diff(a, q, k));
        assert(lex_lt(a, q));
        lemma_lex_trichotomy(a, q);
    } else {
        assert(a.subrange(0, q.len() as int) =~= q) by {
            assert forall|j: int| 0 <= j < q.len() implies a.subrange(0, q.len() as int)[j] == q[j] by {
                assert(a[j] == b[j]);
                assert(b.subrange(0, q.len() as int)[j] == q[j]);
            }
        }
    }
}

/// A prefix of `s` is at most `s`.
pub proof fn lemma_prefix_le(q: Seq<u8>, s: Seq<u8>)
    requires
        is_prefix(q, s),
    ensures
        lex_le(q, s),
{
    if q.len() < s.len() {
        assert forall|j: int| 0 <= j < q.len() implies q[j] == s[j] by {
            assert(s.subrange(0, q.len() as int)[j] == s[j]);
        }
        assert(first_diff(q, s, q.len() as int));
    } else {
        assert(q =~= s);
    }
}

/// Compares two byte strings: negative, zero or positive as `a` is below, equal
/// to or above `b`.
pub fn compare_bytes(a: &[u8], b: &[u8]) -> (r: i8)
    ensures
        r < 0 <==> lex_lt(a@, b@),
        r == 0 <==> a@ == b@,
        r > 0 <==> lex_lt(b@, a@),
{
    let n = if a.len() < b.len() {
        a.len()
    } else {
        b.len()
    };
    let mut i: usize = 0;
    while i < n && a[i] == b[i]
        invariant
            i <= n,
            n <= a.len(),
            n <= b.len(),
            n == a.len() || n == b.len(),
            forall|j: int| 0 <= j < i ==> a@[j] == b@[j],
        decreases n - i,
    {
        i = i + 1;
    }
    proof {
        assert(first_diff(a@, b@, i as int));
        assert(first_diff(b@, a@, i as int));
        lemma_lex_trichotomy(a@, b@);
    }
    if i < n {
        if a[i] < b[i] {
            -1
        } else {
            1
        }
    } else if a.len() < b.len() {
        -1
    } else if a.len() == b.len() {
        proof {
            assert(a@ =~= b@);
        }
        0
    } else {
        1
    }
}

/// `q` is a prefix of `s`.
pub fn starts_with(s: &[u8], q: &[u8]) -> (r: bool)
    ensures
        r == is_prefix(q@, s@),
{
    if q.len() > s.len() {
        return false;
    }
    let mut i: usize = 0;
    while i < q.len()
        invariant
            i <= q.len(),
            q.len() <= s.len(),
            forall|j: int| 0 <= j < i ==> s@[j] == q@[j],
        decreases q.len() - i,
    {
        if s[i] != q[i] {
            proof {
                assert(s@.subrange(0, q@.len() as int)[i as int] != q@[i as int]);
            }
            return false;
        }
        i = i + 1;
    }
    proof {
        assert(s@.subrange(0, q@.len() as int) =~= q@);
    }
    true
}

/// `b` is the first byte of a code point (or a byte of ASCII).
pub fn is_leading_byte(b: u8) -> (r: bool)
    ensures
        r == !is_continuation_byte(b),
{
    b < 0x80 || b >= 0xc0
}

/// A suffix array has at most one entry per byte of its text.
pub proof fn lemma_suffix_array_len(t: Seq<u8>, sa: Seq<u32>)
    requires
        is_suffix_array(t, sa),
    ensures
        sa.len() <= t.len(),
{
    let ints = sa.map_values(|x: u32| x as int);
    assert forall|i: int, j: int| 0 <= i < ints.len() && 0 <= j < ints.len() && i != j implies ints[i]
        != ints[j] by {
        if i < j {
            lemma_lex_trichotomy(suffix(t, sa[i] as int), suffix(t, sa[j] as int));
        } else {
            lemma_lex_trichotomy(suffix(t, sa[j] as int), suffix(t, sa[i] as int));
        }
    }
    assert(ints.no_duplicates());
    ints.unique_seq_to_set();
    vstd::set_lib::lemma_int_range(0, t.len() as int);
    assert(ints.to_set().subset_of(vstd::set_lib::set_int_range(0, t.len() as int))) by {
        assert forall|x: int| ints.to_set().contains(x) implies 0 <= x < t.len() by {
            assert(ints.contains(x));
            let i = choose|i: int| 0 <= i < ints.len() && ints[i] == x;
            assert(is_boundary(t, sa[i] as int));
        }
    }
    vstd::set_lib::lemma_len_subset(ints.to_set(), vstd::set_lib::set_int_range(0, t.len() as int));
}

} // verus!
