//! The single-text index: a text with its suffix array, and substring search.
use vstd::prelude::*;
use vstd::string::StringSliceAdditionalSpecFns;
use crate::codec::{
    decode_u32s, host_endian, lemma_decode_stored, push_u32s, stores, u32_at, Endian,
};
use crate::error::Error;
use crate::lex::{
    compare_bytes, has_entry, is_boundary, is_leading_byte, is_prefix, is_suffix_array,
    lemma_lex_trans, lemma_lex_trichotomy, lemma_prefix_between, lemma_prefix_le,
    lemma_suffix_array_len, lex_le, lex_lt, occurs_at, sorted_by_suffix, starts_with, suffix,
};
use crate::sort::build_suffix_array;

verus! {

/// `[lo, hi)` are exactly the ranks of `sa` whose suffix of `t` starts with `q`.
pub open spec fn is_match_range(t: Seq<u8>, sa: Seq<u32>, q: Seq<u8>, lo: int, hi: int) -> bool {
    &&& 0 <= lo <= hi <= sa.len()
    &&& forall|i: int|
        0 <= i < sa.len() ==> (lo <= i < hi <==> is_prefix(q, suffix(t, sa[i] as int)))
}

/// The entries of `sa` are code-point starts of `t`.
pub open spec fn entries_in_text(t: Seq<u8>, sa: Seq<u32>) -> bool {
    forall|i: int| 0 <= i < sa.len() ==> is_boundary(t, sa[i] as int)
}

/// `q` starts the suffix at `p` exactly when it occurs there.
pub proof fn lemma_prefix_of_suffix(t: Seq<u8>, q: Seq<u8>, p: int)
    requires
        0 <= p <= t.len(),
    ensures
        is_prefix(q, suffix(t, p)) <==> occurs_at(t, q, p),
{
    if q.len() <= t.len() - p {
        assert(suffix(t, p).subrange(0, q.len() as int) =~= t.subrange(p, p + q.len()));
    }
}

/// The first rank whose suffix is not below `query`.
fn binary_search(t: &[u8], sa: &[u32], query: &[u8]) -> (r: usize)
    requires
        entries_in_text(t@, sa@),
    ensures
        r <= sa@.len(),
        sorted_by_suffix(t@, sa@) ==> forall|i: int|
            0 <= i < r ==> lex_lt(suffix(t@, sa@[i] as int), query@),
        sorted_by_suffix(t@, sa@) ==> forall|i: int|
            r <= i < sa@.len() ==> lex_le(query@, suffix(t@, sa@[i] as int)),
{
    let mut left: usize = 0;
    let mut right: usize = sa.len();
    while left < right
        invariant
            left <= right <= sa@.len(),
            entries_in_text(t@, sa@),
            sorted_by_suffix(t@, sa@) ==> forall|i: int|
                0 <= i < left ==> lex_lt(suffix(t@, sa@[i] as int), query@),
            sorted_by_suffix(t@, sa@) ==> forall|i: int|
                right <= i < sa@.len() ==> lex_le(query@, suffix(t@, sa@[i] as int)),
        decreases right - left,
    {
        let mid = left + (right - left) / 2;
        let p = sa[mid] as usize;
        let s = &t[p..t.len()];
        proof {
            assert(s@ =~= suffix(t@, p as int));
        }
        let c = compare_bytes(query, s);
        if c <= 0 {
            proof {
                if sorted_by_suffix(t@, sa@) {
                    assert forall|i: int| mid <= i < sa@.len() implies lex_le(
                        query@,
                        suffix(t@, sa@[i] as int),
                    ) by {
                        if i > mid {
                            if c < 0 {
                                lemma_lex_trans(query@, s@, suffix(t@, sa@[i] as int));
                            }
                        }
                    }
                }
            }
            right = mid;
        } else {
            proof {
                lemma_lex_trichotomy(query@, s@);
                if sorted_by_suffix(t@, sa@) {
                    assert forall|i: int| 0 <= i < mid + 1 implies lex_lt(
                        suffix(t@, sa@[i] as int),
                        query@,
                    ) by {
                        if i < mid {
                            lemma_lex_trans(suffix(t@, sa@[i] as int), s@, query@);
                        }
                    }
                }
            }
            left = mid + 1;
        }
    }
    left
}

/// The number of ranks from `start` on whose suffix starts with `query`.
fn prefix_run_len(t: &[u8], sa: &[u32], query: &[u8], start: usize) -> (r: usize)
    requires
        entries_in_text(t@, sa@),
        start <= sa@.len(),
        sorted_by_suffix(t@, sa@) ==> forall|i: int|
            start <= i < sa@.len() ==> lex_le(query@, suffix(t@, sa@[i] as int)),
    ensures
        start + r <= sa@.len(),
        sorted_by_suffix(t@, sa@) ==> forall|i: int|
            start <= i < start + r ==> is_prefix(query@, suffix(t@, sa@[i] as int)),
        sorted_by_suffix(t@, sa@) ==> forall|i: int|
            start + r <= i < sa@.len() ==> !is_prefix(query@, suffix(t@, sa@[i] as int)),
{
    let mut left: usize = start;
    let mut right: usize = sa.len();
    while left < right
        invariant
            start <= left <= right <= sa@.len(),
            entries_in_text(t@, sa@),
            sorted_by_suffix(t@, sa@) ==> forall|i: int|
                start <= i < sa@.len() ==> lex_le(query@, suffix(t@, sa@[i] as int)),
            sorted_by_suffix(t@, sa@) ==> forall|i: int|
                start <= i < left ==> is_prefix(query@, suffix(t@, sa@[i] as int)),
            sorted_by_suffix(t@, sa@) ==> forall|i: int|
                right <= i < sa@.len() ==> !is_prefix(query@, suffix(t@, sa@[i] as int)),
        decreases right - left,
    {
        let mid = left + (right - left) / 2;
        let p = sa[mid] as usize;
        let s = &t[p..t.len()];
        proof {
            assert(s@ =~= suffix(t@, p as int));
        }
        if !starts_with(s, query) {
            proof {
                if sorted_by_suffix(t@, sa@) {
                    assert forall|i: int| mid <= i < sa@.len() implies !is_prefix(
                        query@,
                        suffix(t@, sa@[i] as int),
                    ) by {
                        if i > mid && is_prefix(query@, suffix(t@, sa@[i] as int)) {
                            lemma_prefix_between(query@, s@, suffix(t@, sa@[i] as int));
                        }
                    }
                }
            }
            right = mid;
        } else {
            proof {
                if sorted_by_suffix(t@, sa@) {
                    assert forall|i: int| start <= i < mid + 1 implies is_prefix(
                        query@,
                        suffix(t@, sa@[i] as int),
                    ) by {
                        if i < mid {
                            lemma_prefix_between(query@, suffix(t@, sa@[i] as int), s@);
                        }
                    }
                }
            }
            left = mid + 1;
        }
    }
    left - start
}

/// Whether `query` is below the smallest suffix without being a prefix of
/// it, or above the largest: then no suffix starts with it.
fn outside_suffixes(t: &[u8], sa: &[u32], query: &[u8]) -> (r: bool)
    requires
        entries_in_text(t@, sa@),
        sa@.len() > 0,
    ensures
        r && sorted_by_suffix(t@, sa@) ==> forall|i: int|
            0 <= i < sa@.len() ==> !is_prefix(query@, suffix(t@, sa@[i] as int)),
{
    let n = sa.len();
    let first = &t[sa[0] as usize..t.len()];
    let last = &t[sa[n - 1] as usize..t.len()];
    let below = compare_bytes(query, first) < 0 && !starts_with(first, query);
    let above = compare_bytes(query, last) > 0;
    proof {
        assert(first@ =~= suffix(t@, sa@[0] as int));
        assert(last@ =~= suffix(t@, sa@[n - 1] as int));
        if sorted_by_suffix(t@, sa@) && (below || above) {
            assert forall|i: int| 0 <= i < sa@.len() implies !is_prefix(
                query@,
                suffix(t@, sa@[i] as int),
            ) by {
                let s = suffix(t@, sa@[i] as int);
                if is_prefix(query@, s) {
                    if below && i > 0 {
                        lemma_prefix_between(query@, first@, s);
                    }
                    if above {
                        lemma_prefix_le(query@, s);
                        if i < n - 1 {
                            lemma_lex_trans(s, last@, query@);
                        }
                        lemma_lex_trichotomy(query@, s);
                    }
                }
            }
        }
    }
    below || above
}

/// The ranks of `sa` whose suffix starts with `query`, found by two binary
/// searches.
fn match_range(t: &[u8], sa: &[u32], query: &[u8]) -> (r: (usize, usize))
    requires
        entries_in_text(t@, sa@),
    ensures
        r.0 <= r.1 <= sa@.len(),
        sorted_by_suffix(t@, sa@) ==> is_match_range(t@, sa@, query@, r.0 as int, r.1 as int),
{
    let start = binary_search(t, sa, query);
    let n = prefix_run_len(t, sa, query, start);
    let total = sa.len();
    proof {
        assert(start + n <= total);
        if sorted_by_suffix(t@, sa@) {
            assert forall|i: int| 0 <= i < start implies !is_prefix(
                query@,
                suffix(t@, sa@[i] as int),
            ) by {
                if is_prefix(query@, suffix(t@, sa@[i] as int)) {
                    lemma_prefix_le(query@, suffix(t@, sa@[i] as int));
                    lemma_lex_trichotomy(query@, suffix(t@, sa@[i] as int));
                }
            }
        }
    }
    (start, start + n)
}

/// `r` is what loading the bytes `b` stored in the byte order `e` as an
/// index of the text with bytes `t` and characters `c` gives: `TextTooLong`
/// exactly for a text longer than `u32::MAX` bytes; else success exactly when
/// `b` is a whole number of entries, no more than the text has bytes, each a
/// code-point start; else `InvalidIndex`.
pub open spec fn loads_index(
    t: Seq<u8>,
    c: Seq<char>,
    b: Seq<u8>,
    e: Endian,
    r: Result<Index, Error>,
) -> bool {
    &&& (r == Err::<Index, Error>(Error::TextTooLong) <==> t.len() > u32::MAX)
    &&& (r is Ok <==> t.len() <= u32::MAX && b.len() % 4 == 0 && b.len() / 4 <= t.len()
        && forall|k: int| 0 <= k < b.len() / 4 ==> is_boundary(t, u32_at(b, k, e) as int))
    &&& (r is Ok || r == Err::<Index, Error>(Error::TextTooLong) || r == Err::<Index, Error>(
        Error::InvalidIndex,
    ))
    &&& (r matches Ok(idx) ==> idx.wf() && idx.bytes() == t && idx.chars() == c && idx.sa().len()
        == b.len() / 4 && forall|k: int| 0 <= k < idx.sa().len() ==> idx.sa()[k] == u32_at(b, k, e))
}

/// A text together with its suffix array, answering substring queries.
#[derive(Clone, Debug, PartialEq)]
pub struct Index<'a> {
    text: &'a str,
    suffix_array: Vec<u32>,
}

impl<'a> Index<'a> {
    /// The bytes of the text.
    pub closed spec fn bytes(&self) -> Seq<u8> {
        self.text.spec_bytes()
    }

    /// The characters of the text.
    pub closed spec fn chars(&self) -> Seq<char> {
        self.text@
    }

    /// The suffix array.
    pub closed spec fn sa(&self) -> Seq<u32> {
        self.suffix_array@
    }

    /// What every index holds: the text fits the 32-bit offsets, and each
    /// entry of the suffix array is a code-point start of the text.
    pub open spec fn wf(&self) -> bool {
        &&& self.bytes().len() <= u32::MAX
        &&& entries_in_text(self.bytes(), self.sa())
    }

    /// The suffix array is the one of the text, as a built index has it.
    pub open spec fn is_complete(&self) -> bool {
        is_suffix_array(self.bytes(), self.sa())
    }

    /// `r` is what `positions` returns for `q`: a run of consecutive ranks of
    /// the suffix array, which on a suffix array in suffix order are exactly
    /// the ranks whose suffix starts with `q`, and which is empty for an empty
    /// `q`.
    pub open spec fn positions_result(&self, q: Seq<u8>, r: Seq<u32>) -> bool {
        exists|lo: int, hi: int|
            #![trigger self.sa().subrange(lo, hi)]
            0 <= lo <= hi <= self.sa().len() && r == self.sa().subrange(lo, hi) && (q.len() == 0
                ==> lo == hi) && (sorted_by_suffix(self.bytes(), self.sa()) && q.len() > 0 ==> is_match_range(
                self.bytes(),
                self.sa(),
                q,
                lo,
                hi,
            ))
    }

    /// Same text and same suffix array.
    pub open spec fn same(&self, other: &Index) -> bool {
        &&& self.bytes() == other.bytes()
        &&& self.chars() == other.chars()
        &&& self.sa() == other.sa()
    }

    /// A copy of this index over the same text.
    pub fn copy(&self) -> (r: Index<'a>)
        ensures
            r.same(self),
    {
        let mut sa: Vec<u32> = Vec::new();
        let mut i: usize = 0;
        while i < self.suffix_array.len()
            invariant
                i <= self.sa().len(),
                sa@ == self.sa().subrange(0, i as int),
            decreases self.sa().len() - i,
        {
            sa.push(self.suffix_array[i]);
            i = i + 1;
            proof {
                assert(sa@ =~= self.sa().subrange(0, i as int));
            }
        }
        proof {
            assert(sa@ =~= self.sa());
        }
        Index { text: self.text, suffix_array: sa }
    }

    pub(crate) fn from_parts(text: &'a str, suffix_array: Vec<u32>) -> (r: Index<'a>)
        ensures
            r.bytes() == text.spec_bytes(),
            r.chars() == text@,
            r.sa() == suffix_array@,
    {
        Index { text, suffix_array }
    }

    /// Pairs `text` with a suffix array read from elsewhere. Fails with
    /// `TextTooLong` on a text longer than `u32::MAX` bytes, and with
    /// `InvalidIndex` when the array is longer than the text or holds an
    /// offset that is not a code-point start of the text.
    pub fn from_suffix_array(text: &'a str, suffix_array: Vec<u32>) -> (r: Result<
        Index<'a>,
        Error,
    >)
        ensures
            r == Err::<Index<'a>, Error>(Error::TextTooLong) <==> text.spec_bytes().len()
                > u32::MAX,
            r == Err::<Index<'a>, Error>(Error::InvalidIndex) <==> text.spec_bytes().len()
                <= u32::MAX && (suffix_array@.len() > text.spec_bytes().len()
                || !entries_in_text(text.spec_bytes(), suffix_array@)),
            r is Ok <==> text.spec_bytes().len() <= u32::MAX && suffix_array@.len()
                <= text.spec_bytes().len() && entries_in_text(text.spec_bytes(), suffix_array@),
            r matches Ok(idx) ==> idx.wf() && idx.bytes() == text.spec_bytes() && idx.chars()
                == text@ && idx.sa() == suffix_array@,
    {
        let t = text.as_bytes();
        if t.len() > u32::MAX as usize {
            return Err(Error::TextTooLong);
        }
        if suffix_array.len() > t.len() {
            return Err(Error::InvalidIndex);
        }
        let mut i: usize = 0;
        while i < suffix_array.len()
            invariant
                t@ == text.spec_bytes(),
                t@.len() <= u32::MAX,
                suffix_array@.len() <= t@.len(),
                i <= suffix_array@.len(),
                forall|k: int| 0 <= k < i ==> is_boundary(t@, suffix_array@[k] as int),
            decreases suffix_array@.len() - i,
        {
            let p = suffix_array[i] as usize;
            if p >= t.len() || !is_leading_byte(t[p]) {
                proof {
                    assert(!is_boundary(t@, suffix_array@[i as int] as int));
                }
                return Err(Error::InvalidIndex);
            }
            i = i + 1;
        }
        Ok(Index { text, suffix_array })
    }

    /// Binds `text` to an index stored by [`Index::to_bytes`] in the byte
    /// order `order`. Fails as [`Index::from_suffix_array`] does, and with
    /// `InvalidIndex` when the length of `bytes` is not a multiple of four.
    pub fn from_bytes_in(text: &'a str, bytes: &[u8], order: Endian) -> (r: Result<
        Index<'a>,
        Error,
    >)
        ensures
            loads_index(text.spec_bytes(), text@, bytes@, order, r),
    {
        if text.as_bytes().len() > u32::MAX as usize {
            return Err(Error::TextTooLong);
        }
        if bytes.len() % 4 != 0 {
            return Err(Error::InvalidIndex);
        }
        let sa = decode_u32s(bytes, order);
        let r = Index::from_suffix_array(text, sa);
        proof {
            assert(entries_in_text(text.spec_bytes(), sa@) <==> forall|k: int|
                0 <= k < bytes@.len() / 4 ==> is_boundary(
                    text.spec_bytes(),
                    u32_at(bytes@, k, order) as int,
                )) by {
                if !entries_in_text(text.spec_bytes(), sa@) {
                    let i = choose|i: int|
                        0 <= i < sa@.len() && !is_boundary(text.spec_bytes(), sa@[i] as int);
                    assert(!is_boundary(text.spec_bytes(), u32_at(bytes@, i, order) as int));
                } else {
                    assert forall|k: int| 0 <= k < bytes@.len() / 4 implies is_boundary(
                        text.spec_bytes(),
                        u32_at(bytes@, k, order) as int,
                    ) by {
                        assert(sa@[k] == u32_at(bytes@, k, order));
                    }
                }
            }
        }
        r
    }

    /// Binds `text` to an index stored in the byte order of the machine, as
    /// [`Index::from_bytes_in`] does with that order.
    pub fn from_bytes(text: &'a str, bytes: &[u8]) -> (r: Result<Index<'a>, Error>)
        ensures
            loads_index(text.spec_bytes(), text@, bytes@, Endian::Little, r) || loads_index(
                text.spec_bytes(),
                text@,
                bytes@,
                Endian::Big,
                r,
            ),
    {
        Index::from_bytes_in(text, bytes, host_endian())
    }

    /// The suffix array stored in the byte order `order`, four bytes an entry.
    pub fn to_bytes(&self, order: Endian) -> (r: Vec<u8>)
        ensures
            stores(r@, self.sa(), order),
    {
        let mut r: Vec<u8> = Vec::new();
        push_u32s(&mut r, self.suffix_array.as_slice(), order);
        proof {
            assert(r@.subrange(0, r@.len() as int) =~= r@);
        }
        r
    }

    /// The text.
    pub fn text(&self) -> (r: &'a str)
        ensures
            r@ == self.chars(),
            r.spec_bytes() == self.bytes(),
    {
        self.text
    }

    /// The suffix array.
    pub fn suffix_array(&self) -> (r: &[u32])
        ensures
            r@ == self.sa(),
    {
        self.suffix_array.as_slice()
    }

    /// How many entries `positions` returns for `query`.
    pub fn freq(&self, query: &str) -> (r: usize)
        requires
            self.wf(),
        ensures
            exists|s: Seq<u32>| self.positions_result(query.spec_bytes(), s) && r == s.len(),
    {
        self.positions(query).len()
    }

    /// The offsets where `query` occurs in the text, in suffix order.
    pub fn positions(&self, query: &str) -> (r: &[u32])
        requires
            self.wf(),
        ensures
            self.positions_result(query.spec_bytes(), r@),
            self.bytes().len() == 0 || query.spec_bytes().len() == 0 || query.spec_bytes().len()
                > self.bytes().len() ==> r@.len() == 0,
            self.is_complete() && query.spec_bytes().len() > 0 ==> forall|x: int|
                has_entry(r@, x) <==> is_boundary(self.bytes(), x) && occurs_at(
                    self.bytes(),
                    query.spec_bytes(),
                    x,
                ),
    {
        self.positions_of(query.as_bytes())
    }

    /// The offsets where the bytes `query` occur in the text, in suffix order.
    pub(crate) fn positions_of(&self, query: &[u8]) -> (r: &[u32])
        requires
            self.wf(),
        ensures
            self.positions_result(query@, r@),
            self.bytes().len() == 0 || query@.len() == 0 || query@.len()
                > self.bytes().len() ==> r@.len() == 0,
            self.is_complete() && query@.len() > 0 ==> forall|x: int|
                has_entry(r@, x) <==> is_boundary(self.bytes(), x) && occurs_at(
                    self.bytes(),
                    query@,
                    x,
                ),
    {
        let t = self.text.as_bytes();
        let q = query;
        let sa = self.suffix_array.as_slice();
        if t.len() == 0 || q.len() == 0 || q.len() > t.len() {
            let r = &sa[0..0];
            proof {
                assert(r@ == self.sa().subrange(0, 0));
            }
            return r;
        }
        if sa.len() > 0 && outside_suffixes(t, sa, q) {
            let r = &sa[0..0];
            proof {
                assert(r@ == self.sa().subrange(0, 0));
            }
            return r;
        }
        let (lo, hi) = match_range(t, sa, q);
        let r = &sa[lo..hi];
        proof {
            assert(r@ == self.sa().subrange(lo as int, hi as int));
            if self.is_complete() {
                assert forall|x: int|
                    is_boundary(self.bytes(), x) && occurs_at(
                        self.bytes(),
                        q@,
                        x,
                    ) implies has_entry(r@, x) by {
                    let i = choose|i: int| 0 <= i < self.sa().len() && self.sa()[i] == x;
                    lemma_prefix_of_suffix(t@, q@, x);
                    assert(r@[i - lo] == x);
                }
                assert forall|x: int|
                    has_entry(r@, x) implies is_boundary(self.bytes(), x) && occurs_at(
                        self.bytes(),
                        q@,
                        x,
                    ) by {
                    let k = choose|k: int| 0 <= k < r@.len() && r@[k] == x;
                    assert(self.sa()[lo + k] == x);
                    lemma_prefix_of_suffix(t@, q@, x);
                }
            }
        }
        r
    }
}

/// Settings for building an [`Index`] of a text.
#[derive(Clone, Debug)]
pub struct IndexBuilder<'a> {
    text: &'a str,
    block_size: u32,
}

impl<'a> IndexBuilder<'a> {
    /// The bytes of the text to index.
    pub closed spec fn bytes(&self) -> Seq<u8> {
        self.text.spec_bytes()
    }

    /// The characters of the text to index.
    pub closed spec fn chars(&self) -> Seq<char> {
        self.text@
    }

    /// The block size in bytes.
    pub closed spec fn spec_block_size(&self) -> u32 {
        self.block_size
    }

    /// A builder for `text`, with the largest block size.
    pub fn new(text: &'a str) -> (r: IndexBuilder<'a>)
        ensures
            r.bytes() == text.spec_bytes(),
            r.chars() == text@,
            r.spec_block_size() == u32::MAX,
    {
        IndexBuilder { text, block_size: u32::MAX }
    }

    /// Sets the block size: texts longer than it are sorted block by block.
    pub fn block_size(&mut self, block_size: u32) -> (r: &mut Self)
        ensures
            r.bytes() == old(self).bytes(),
            r.chars() == old(self).chars(),
            r.spec_block_size() == block_size,
            *final(self) == *final(r),
    {
        self.block_size = block_size;
        self
    }

    /// Builds the index. Fails with `TextTooLong` on a text longer than
    /// `u32::MAX` bytes and with `InvalidOption` on a zero block size.
    pub fn build(&self) -> (r: Result<Index<'a>, Error>)
        ensures
            self.bytes().len() > u32::MAX <==> r == Err::<Index<'a>, Error>(Error::TextTooLong),
            r matches Err(Error::InvalidOption(_)) <==> self.bytes().len() <= u32::MAX
                && self.spec_block_size() == 0,
            r is Ok <==> self.bytes().len() <= u32::MAX && self.spec_block_size() > 0,
            r matches Ok(idx) ==> {
                &&& idx.wf()
                &&& idx.bytes() == self.bytes()
                &&& idx.chars() == self.chars()
                &&& idx.is_complete()
            },
    {
        if self.text.as_bytes().len() > u32::MAX as usize {
            return Err(Error::TextTooLong);
        }
        if self.block_size == 0 {
            return Err(Error::InvalidOption("block size cannot be 0".to_string()));
        }
        let sa = build_suffix_array(self.text, self.block_size);
        Ok(Index::from_parts(self.text, sa))
    }
}

/// On a complete index the offsets `positions` returns are distinct.
pub proof fn lemma_positions_distinct(idx: &Index, q: Seq<u8>, r: Seq<u32>)
    requires
        idx.is_complete(),
        idx.positions_result(q, r),
    ensures
        r.no_duplicates(),
{
    let (lo, hi) = choose|lo: int, hi: int|
        #![trigger idx.sa().subrange(lo, hi)]
        0 <= lo <= hi <= idx.sa().len() && r == idx.sa().subrange(lo, hi) && (q.len() == 0 ==> lo
            == hi) && (sorted_by_suffix(idx.bytes(), idx.sa()) && q.len() > 0 ==> is_match_range(
            idx.bytes(),
            idx.sa(),
            q,
            lo,
            hi,
        ));
    assert forall|i: int, j: int| 0 <= i < r.len() && 0 <= j < r.len() && i != j implies r[i]
        != r[j] by {
        let t = idx.bytes();
        let a = suffix(t, r[i] as int);
        let b = suffix(t, r[j] as int);
        assert(r[i] == idx.sa()[lo + i] && r[j] == idx.sa()[lo + j]);
        if i < j {
            assert(lex_lt(a, b));
        } else {
            assert(lex_lt(b, a));
        }
        lemma_lex_trichotomy(a, b);
    }
}

/// Round trip: a complete index stored by [`Index::to_bytes`] in the byte
/// order `e` (`b`) and loaded back in that order with its text
/// ([`Index::from_bytes_in`], `r`) is the same index.
pub proof fn lemma_index_round_trip(idx: &Index, b: Seq<u8>, e: Endian, r: Result<Index, Error>)
    requires
        idx.wf(),
        idx.is_complete(),
        stores(b, idx.sa(), e),
        loads_index(idx.bytes(), idx.chars(), b, e, r),
    ensures
        r matches Ok(loaded) && loaded.same(idx),
{
    lemma_suffix_array_len(idx.bytes(), idx.sa());
    lemma_decode_stored(b, idx.sa(), e);
    assert(b.len() % 4 == 0 && b.len() / 4 == idx.sa().len()) by (nonlinear_arith)
        requires
            b.len() == 4 * idx.sa().len(),
    ;
    assert forall|k: int| 0 <= k < b.len() / 4 implies is_boundary(idx.bytes(), u32_at(b, k, e) as int) by {
        assert(u32_at(b, k, e) == idx.sa()[k]);
    }
    if let Ok(loaded) = r {
        assert(loaded.sa() =~= idx.sa());
    }
}

/// The text of an index is valid UTF-8.
pub proof fn lemma_index_text_utf8(idx: &Index)
    ensures
        vstd::utf8::valid_utf8(idx.bytes()),
{
    broadcast use vstd::utf8::group_utf8_lib;

}

} // verus!
