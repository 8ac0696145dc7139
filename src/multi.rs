//! Many documents in one text, split by a delimiter character.
use itertools::Itertools;
use vstd::prelude::*;
use vstd::string::{StrSliceExecFns, StringSliceAdditionalSpecFns};
use vstd::utf8::{
    decode_utf8, encode_utf8, group_utf8_lib, is_char_boundary, is_continuation_byte,
    length_of_first_codepoint, valid_utf8,
};
use crate::codec::{
    bytes_of_u32, decode_u32s, host_endian, lemma_decode_stored, lemma_stores_read, push_u32, push_u32s,
    read_u32, stores, u32_at, Endian,
};
use crate::error::Error;
use crate::index::{
    is_match_range, lemma_index_text_utf8, lemma_positions_distinct, lemma_prefix_of_suffix, Index,
};
use crate::lex::{
    char_bytes, encode_char, has_entry, is_boundary, is_leading_byte, is_stop, is_substring,
    is_prefix, lemma_one_char_bytes, lemma_suffix_array_len, occurs_at, occurs_in, slice_str,
    sorted_by_suffix, suffix,
};

verus! {

/// Relies on itertools' `Itertools::sorted`: the same items, in ascending
/// order.
#[verifier::external_body]
fn sorted_u32(xs: &[u32]) -> (r: Vec<u32>)
    ensures
        r@.to_multiset() == xs@.to_multiset(),
        forall|i: int, j: int| 0 <= i < j < r@.len() ==> r@[i] <= r@[j],
{
    xs.iter().copied().sorted().collect()
}

/// Relies on `std::str::from_utf8`: a `str` exactly when the bytes are
/// valid UTF-8, holding those bytes.
#[verifier::external_body]
fn str_from_utf8(b: &[u8]) -> (r: Option<&str>)
    ensures
        r is Some <==> valid_utf8(b@),
        r matches Some(s) ==> s.spec_bytes() == b@,
{
    std::str::from_utf8(b).ok()
}

/// The integers stored in `b`, four bytes each.
pub open spec fn u32s_of(b: Seq<u8>, e: Endian) -> Seq<u32> {
    Seq::new((b.len() / 4) as nat, |k: int| u32_at(b, k, e))
}

/// `b` stores a multi-document index: the suffix array `sa`, the document
/// starts `offsets`, the delimiter bytes `db`, and a footer of three numbers,
/// the lengths of the three.
pub open spec fn stores_multi(
    b: Seq<u8>,
    sa: Seq<u32>,
    offsets: Seq<u32>,
    db: Seq<u8>,
    e: Endian,
) -> bool {
    let s = 4 * sa.len() as int;
    let o = 4 * offsets.len() as int;
    &&& b.len() == s + o + db.len() + 12
    &&& stores(b.subrange(0, s), sa, e)
    &&& stores(b.subrange(s, s + o), offsets, e)
    &&& b.subrange(s + o, s + o + db.len()) == db
    &&& stores(
        b.subrange(b.len() - 12, b.len() as int),
        seq![sa.len() as u32, offsets.len() as u32, db.len() as u32],
        e,
    )
}

/// Number `j` of the footer of `b`.
pub open spec fn footer(b: Seq<u8>, j: int, e: Endian) -> int {
    u32_at(b.subrange(b.len() - 12, b.len() as int), j, e) as int
}

/// The footer of `b` gives the length of `b`.
pub open spec fn frame_ok(b: Seq<u8>, e: Endian) -> bool {
    b.len() >= 12 && 4 * footer(b, 0, e) + 4 * footer(b, 1, e) + footer(b, 2, e) + 12 == b.len()
}

/// `r` is what loading `b`, stored in the byte order `e`, as a multi-document
/// index of the text with bytes `t` and characters `c` gives: `TextTooLong`
/// exactly when the footer fits and the text is longer than `u32::MAX` bytes;
/// success exactly when, moreover, the suffix array part loads, the document
/// starts are in order within the text, and the delimiter bytes are one
/// character; else `InvalidIndex`.
pub open spec fn loads_multi(
    t: Seq<u8>,
    c: Seq<char>,
    b: Seq<u8>,
    e: Endian,
    r: Result<MultiDocIndex, Error>,
) -> bool {
    let s = 4 * footer(b, 0, e);
    let o = 4 * footer(b, 1, e);
    let dl = footer(b, 2, e);
    &&& (r == Err::<MultiDocIndex, Error>(Error::TextTooLong) <==> frame_ok(b, e) && t.len()
        > u32::MAX)
    &&& (r is Ok <==> frame_ok(b, e) && t.len() <= u32::MAX && s / 4 <= t.len() && (forall|k: int|
        0 <= k < s / 4 ==> is_boundary(t, u32_at(b, k, e) as int)) && offsets_wf(
        u32s_of(b.subrange(s, s + o), e),
        t.len() as int,
    ) && exists|d: char| b.subrange(s + o, s + o + dl) == char_bytes(d))
    &&& (r is Ok || r == Err::<MultiDocIndex, Error>(Error::TextTooLong) || r == Err::<
        MultiDocIndex,
        Error,
    >(Error::InvalidIndex))
    &&& (r matches Ok(m) ==> m.wf() && m.spec_index().bytes() == t && m.spec_index().chars() == c
        && m.spec_index().sa().len() == s / 4 && m.offsets().len() == o / 4 && stores_multi(
        b,
        m.spec_index().sa(),
        m.offsets(),
        char_bytes(m.delim()),
        e,
    ))
}

/// Document starts as a multi-document index holds them: the first at 0,
/// strictly ascending, none past the end of a text of `len` bytes.
pub open spec fn offsets_wf(offsets: Seq<u32>, len: int) -> bool {
    &&& offsets.len() >= 1
    &&& offsets[0] == 0
    &&& forall|i: int, j: int| 0 <= i < j < offsets.len() ==> offsets[i] < offsets[j]
    &&& forall|i: int| 0 <= i < offsets.len() ==> offsets[i] <= len
}

/// Document `k` starts at or before `p`, and the next one after it.
pub open spec fn holds_offset(offsets: Seq<u32>, p: int, k: int) -> bool {
    0 <= k < offsets.len() && offsets[k] <= p && (k + 1 == offsets.len() || p < offsets[k + 1])
}

/// The document that holds offset `p`: the last one that starts at or before it.
pub open spec fn doc_of(offsets: Seq<u32>, p: int) -> int {
    choose|k: int| holds_offset(offsets, p, k)
}

/// The document that holds `p` is the one `doc_of` names.
pub proof fn lemma_doc_of(offsets: Seq<u32>, p: int, k: int)
    requires
        offsets_wf(offsets, offsets[offsets.len() - 1] as int),
        holds_offset(offsets, p, k),
    ensures
        doc_of(offsets, p) == k,
{
    let j = doc_of(offsets, p);
    if j < k {
        assert(offsets[j + 1] <= offsets[k]);
    } else if k < j {
        assert(offsets[k + 1] <= offsets[j]);
    }
}

/// A hit at `p` of a query of `qlen` bytes stays inside its document, whose
/// end lies `dlen` bytes (the delimiter) before the start of the next one.
pub open spec fn inside_doc(offsets: Seq<u32>, dlen: int, qlen: int, p: int) -> bool {
    let k = doc_of(offsets, p);
    k + 1 < offsets.len() ==> p + qlen + dlen <= offsets[k + 1]
}

/// A hit at `p` as a document number and an offset inside that document.
pub open spec fn doc_hit(offsets: Seq<u32>, p: int) -> (u32, u32) {
    let k = doc_of(offsets, p);
    (k as u32, (p - offsets[k]) as u32)
}

/// The hits `hits` that stay inside their document, each as a document
/// number and an offset in that document, in the order of `hits`.
#[verifier::opaque]
pub open spec fn doc_hits(offsets: Seq<u32>, dlen: int, qlen: int, hits: Seq<u32>) -> Seq<
    (u32, u32),
>
    decreases hits.len(),
{
    if hits.len() == 0 {
        Seq::empty()
    } else {
        let prev = doc_hits(offsets, dlen, qlen, hits.drop_last());
        let p = hits.last() as int;
        if inside_doc(offsets, dlen, qlen, p) {
            prev.push(doc_hit(offsets, p))
        } else {
            prev
        }
    }
}

/// Document starts grow by at least one from each to the next.
proof fn lemma_offsets_grow(offsets: Seq<u32>, k: int)
    requires
        offsets_wf(offsets, offsets[offsets.len() - 1] as int),
        0 <= k < offsets.len(),
    ensures
        k <= offsets[k],
    decreases k,
{
    if k > 0 {
        lemma_offsets_grow(offsets, k - 1);
    }
}

/// Whether `offsets` are document starts of a text of `len` bytes.
fn check_offsets(offsets: &[u32], len: usize) -> (r: bool)
    ensures
        r == offsets_wf(offsets@, len as int),
{
    if offsets.len() == 0 || offsets[0] != 0 || offsets[offsets.len() - 1] as usize > len {
        return false;
    }
    let mut i: usize = 1;
    while i < offsets.len()
        invariant
            1 <= i <= offsets@.len(),
            offsets@[0] == 0,
            offsets@[offsets@.len() - 1] <= len,
            forall|a: int, b: int| 0 <= a < b < i ==> offsets@[a] < offsets@[b],
        decreases offsets@.len() - i,
    {
        if offsets[i - 1] >= offsets[i] {
            return false;
        }
        i = i + 1;
    }
    proof {
        assert forall|k: int| 0 <= k < offsets@.len() implies offsets@[k] <= len by {
            if k < offsets@.len() - 1 {
                assert(offsets@[k] < offsets@[offsets@.len() - 1]);
            }
        }
    }
    true
}

/// The last document start at or before `pos`, by binary search.
fn find_doc(offsets: &[u32], pos: u32) -> (r: usize)
    requires
        offsets_wf(offsets@, offsets@[offsets@.len() - 1] as int),
    ensures
        r == doc_of(offsets@, pos as int),
        holds_offset(offsets@, pos as int, r as int),
        r <= offsets@[r as int],
{
    let mut lo: usize = 0;
    let mut hi: usize = offsets.len();
    while lo + 1 < hi
        invariant
            offsets_wf(offsets@, offsets@[offsets@.len() - 1] as int),
            0 <= lo < hi <= offsets@.len(),
            offsets@[lo as int] <= pos,
            hi == offsets@.len() || pos < offsets@[hi as int],
        decreases hi - lo,
    {
        let mid = lo + (hi - lo) / 2;
        if offsets[mid] <= pos {
            lo = mid;
        } else {
            hi = mid;
        }
    }
    proof {
        assert(holds_offset(offsets@, pos as int, lo as int));
        lemma_doc_of(offsets@, pos as int, lo as int);
        lemma_offsets_grow(offsets@, lo as int);
    }
    lo
}

/// The hits of a query in a multi-document index, handed out one by one as a
/// document number and an offset in that document.
pub struct DocPositions<'b> {
    hits: &'b [u32],
    offsets: &'b [u32],
    query_len: usize,
    delim_len: usize,
    cursor: usize,
}

impl<'b> DocPositions<'b> {
    /// The hits in the text, in the order they are handed out.
    pub closed spec fn hits(&self) -> Seq<u32> {
        self.hits@
    }

    /// The document starts.
    pub closed spec fn offsets(&self) -> Seq<u32> {
        self.offsets@
    }

    /// The length of the query in bytes.
    pub closed spec fn query_len(&self) -> int {
        self.query_len as int
    }

    /// The length of the delimiter in bytes.
    pub closed spec fn delim_len(&self) -> int {
        self.delim_len as int
    }

    /// How many hits have been looked at.
    pub closed spec fn cursor(&self) -> int {
        self.cursor as int
    }

    /// What every value holds.
    pub open spec fn wf(&self) -> bool {
        &&& offsets_wf(self.offsets(), self.offsets()[self.offsets().len() - 1] as int)
        &&& 0 <= self.cursor() <= self.hits().len()
    }

    /// What is still to come: the hits from the cursor on that stay inside
    /// their document.
    pub open spec fn rest(&self) -> Seq<(u32, u32)> {
        doc_hits(
            self.offsets(),
            self.delim_len(),
            self.query_len(),
            self.hits().subrange(self.cursor(), self.hits().len() as int),
        )
    }

    /// The document number of the hit at `pos`.
    fn doc_id_from_pos(&self, pos: u32) -> (r: Option<u32>)
        requires
            self.wf(),
        ensures
            r matches Some(k) && k == doc_of(self.offsets(), pos as int) && holds_offset(
                self.offsets(),
                pos as int,
                k as int,
            ),
    {
        Some(find_doc(self.offsets, pos) as u32)
    }

    /// The next hit that stays inside its document; none when no hit is left.
    pub fn next(&mut self) -> (r: Option<(u32, u32)>)
        requires
            old(self).wf(),
        ensures
            final(self).wf(),
            final(self).hits() == old(self).hits(),
            final(self).offsets() == old(self).offsets(),
            final(self).query_len() == old(self).query_len(),
            final(self).delim_len() == old(self).delim_len(),
            r is None ==> old(self).rest().len() == 0 && final(self).rest().len() == 0,
            r matches Some(h) ==> old(self).rest().len() > 0 && h == old(self).rest()[0]
                && final(self).rest() == old(self).rest().drop_first(),
    {
        let hits = self.hits;
        let offsets = self.offsets;
        let ghost qlen = self.query_len();
        let ghost dlen = self.delim_len();
        let mut c = self.cursor;
        while c < hits.len()
            invariant
                hits@ == old(self).hits(),
                offsets@ == old(self).offsets(),
                qlen == old(self).query_len(),
                dlen == old(self).delim_len(),
                qlen == self.query_len,
                dlen == self.delim_len,
                offsets_wf(offsets@, offsets@[offsets@.len() - 1] as int),
                *self == *old(self),
                old(self).cursor() <= c <= hits@.len(),
                doc_hits(offsets@, dlen, qlen, hits@.subrange(c as int, hits@.len() as int))
                    == old(self).rest(),
            decreases hits@.len() - c,
        {
            let p = hits[c];
            let k = match self.doc_id_from_pos(p) {
                Some(k) => k as usize,
                None => 0,
            };
            let inside = if k < offsets.len() - 1 {
                (p as u128) + (self.query_len as u128) + (self.delim_len as u128) <= offsets[k
                    + 1] as u128
            } else {
                true
            };
            proof {
                lemma_doc_hits_step(offsets@, dlen, qlen, hits@, c as int);
            }
            c = c + 1;
            if inside {
                let h = (k as u32, p - offsets[k]);
                self.cursor = c;
                return Some(h);
            }
        }
        self.cursor = c;
        proof {
            reveal(doc_hits);
            assert(hits@.subrange(c as int, hits@.len() as int) =~= Seq::<u32>::empty());
        }
        None
    }

    /// Hands out all hits that are left, in order.
    pub fn into_vec(self) -> (r: Vec<(u32, u32)>)
        requires
            self.wf(),
        ensures
            r@ == self.rest(),
    {
        let mut it = self;
        let mut r: Vec<(u32, u32)> = Vec::new();
        let mut next = it.next();
        while next.is_some()
            invariant
                it.wf(),
                it.hits() == self.hits(),
                r@ + (if next is Some {
                    seq![next->0]
                } else {
                    Seq::empty()
                }) + it.rest() == self.rest(),
                next is None ==> it.rest().len() == 0,
            decreases it.rest().len() + if next is Some {
                1int
            } else {
                0int
            },
        {
            let h = match next {
                Some(h) => h,
                None => (0, 0),
            };
            r.push(h);
            next = it.next();
        }
        r
    }
}

/// `doc_hits` from the hit at `c` on: that hit, if it stays inside its
/// document, followed by `doc_hits` from `c + 1` on.
proof fn lemma_doc_hits_step(offsets: Seq<u32>, dlen: int, qlen: int, hits: Seq<u32>, c: int)
    requires
        0 <= c < hits.len(),
    ensures
        doc_hits(offsets, dlen, qlen, hits.subrange(c, hits.len() as int)) == (if inside_doc(
            offsets,
            dlen,
            qlen,
            hits[c] as int,
        ) {
            seq![doc_hit(offsets, hits[c] as int)]
        } else {
            Seq::empty()
        }) + doc_hits(offsets, dlen, qlen, hits.subrange(c + 1, hits.len() as int)),
{
    let before = hits.subrange(c, hits.len() as int);
    lemma_doc_hits_front(offsets, dlen, qlen, before);
    assert(before.drop_first() =~= hits.subrange(c + 1, hits.len() as int));
}

/// The front of `doc_hits`: the first hit, if it stays inside its document,
/// followed by the rest.
proof fn lemma_doc_hits_front(offsets: Seq<u32>, dlen: int, qlen: int, hits: Seq<u32>)
    requires
        hits.len() > 0,
    ensures
        doc_hits(offsets, dlen, qlen, hits) == (if inside_doc(offsets, dlen, qlen, hits[0] as int) {
            seq![doc_hit(offsets, hits[0] as int)]
        } else {
            Seq::empty()
        }) + doc_hits(offsets, dlen, qlen, hits.drop_first()),
    decreases hits.len(),
{
    reveal(doc_hits);
    if hits.len() == 1 {
        assert(hits.drop_last() =~= Seq::<u32>::empty());
        assert(hits.drop_first() =~= Seq::<u32>::empty());
    } else {
        lemma_doc_hits_front(offsets, dlen, qlen, hits.drop_last());
        assert(hits.drop_last().drop_first() =~= hits.drop_first().drop_last());
        assert(hits.drop_last()[0] == hits[0]);
        assert(hits.drop_first().last() == hits.last());
    }
}

/// Where document `k` ends: before the delimiter that follows it, or at the
/// end of a text of `len` bytes for the last one.
pub open spec fn doc_end(offsets: Seq<u32>, k: int, len: int, dlen: int) -> int {
    if k == offsets.len() - 1 {
        len
    } else {
        offsets[k + 1] - dlen
    }
}

/// `q` holds the bytes of the delimiter `d`.
pub open spec fn holds_delim(q: Seq<u8>, d: char) -> bool {
    is_substring(char_bytes(d), q)
}

/// `offsets` are the document starts of the text of `index` split at `d`:
/// 0 first, then ascending, within the text; on a complete index, each but
/// the first just past an occurrence of `d` at a code-point start, and one
/// just past every such occurrence. Without a complete index only the first
/// part holds.
pub open spec fn offsets_starts(index: Index, d: char, offsets: Seq<u32>) -> bool {
    let t = index.bytes();
    let db = char_bytes(d);
    &&& offsets_wf(offsets, t.len() as int)
    &&& index.is_complete() ==> forall|k: int|
        1 <= k < offsets.len() ==> offsets[k] >= db.len() && occurs_at(
            t,
            db,
            offsets[k] - db.len(),
        ) && is_boundary(t, offsets[k] - db.len())
    &&& index.is_complete() ==> forall|p: int|
        is_boundary(t, p) && occurs_at(t, db, p) ==> exists|k: int|
            1 <= k < offsets.len() && offsets[k] == p + db.len()
}

/// The bytes of a character are valid UTF-8 and decode to that character.
proof fn lemma_char_bytes_utf8(d: char)
    ensures
        valid_utf8(char_bytes(d)),
        decode_utf8(char_bytes(d)) == seq![d],
        char_bytes(d) == encode_utf8(seq![d]),
{
    broadcast use group_utf8_lib;

    reveal_with_fuel(encode_utf8, 2);
    assert(seq![d].drop_first() =~= Seq::<char>::empty());
    assert(char_bytes(d) =~= encode_utf8(seq![d]));
}

/// A `str` whose bytes encode `cs` holds the characters `cs`.
proof fn lemma_same_bytes_same_chars(s: &str, cs: Seq<char>)
    requires
        s.spec_bytes() == encode_utf8(cs),
    ensures
        s@ == cs,
{
    broadcast use group_utf8_lib;

    assert(decode_utf8(encode_utf8(s@)) == s@);
    assert(decode_utf8(encode_utf8(cs)) == cs);
}

/// Appends `xs` to `out`.
fn append_bytes(out: &mut Vec<u8>, xs: &[u8])
    ensures
        final(out)@ == old(out)@ + xs@,
{
    let ghost start = out@;
    let mut i: usize = 0;
    while i < xs.len()
        invariant
            i <= xs@.len(),
            out@ == start + xs@.subrange(0, i as int),
        decreases xs@.len() - i,
    {
        out.push(xs[i]);
        i = i + 1;
        proof {
            assert(out@ =~= start + xs@.subrange(0, i as int));
        }
    }
    proof {
        assert(xs@.subrange(0, xs@.len() as int) =~= xs@);
    }
}

/// The four parts one after the other store a multi-document index.
proof fn lemma_stores_multi(
    a: Seq<u8>,
    b: Seq<u8>,
    d: Seq<u8>,
    f: Seq<u8>,
    sa: Seq<u32>,
    offsets: Seq<u32>,
    e: Endian,
)
    requires
        stores(a, sa, e),
        stores(b, offsets, e),
        stores(f, seq![sa.len() as u32, offsets.len() as u32, d.len() as u32], e),
    ensures
        stores_multi(a + b + d + f, sa, offsets, d, e),
{
    let all = a + b + d + f;
    let s = 4 * sa.len() as int;
    let o = 4 * offsets.len() as int;
    assert(all.subrange(0, s) =~= a);
    assert(all.subrange(s, s + o) =~= b);
    assert(all.subrange(s + o, s + o + d.len()) =~= d);
    assert(all.subrange(all.len() - 12, all.len() as int) =~= f);
}

/// An index over documents joined by a delimiter character.
#[derive(Clone, Debug, PartialEq)]
pub struct MultiDocIndex<'a> {
    index: Index<'a>,
    offsets: Vec<u32>,
    delimiter: char,
}

impl<'a> MultiDocIndex<'a> {
    /// The index of the joined text.
    pub closed spec fn spec_index(&self) -> Index<'a> {
        self.index
    }

    /// The start of each document in the joined text.
    pub closed spec fn offsets(&self) -> Seq<u32> {
        self.offsets@
    }

    /// The delimiter.
    pub closed spec fn delim(&self) -> char {
        self.delimiter
    }

    /// What every multi-document index holds.
    pub open spec fn wf(&self) -> bool {
        &&& self.spec_index().wf()
        &&& offsets_wf(self.offsets(), self.spec_index().bytes().len() as int)
    }

    /// Binds `text` to a multi-document index stored by
    /// [`MultiDocIndexBuilder::to_bytes`] in the byte order `order`. The footer
    /// is read first, from the last twelve bytes; then the suffix array, the
    /// document starts and the delimiter by the lengths it gives.
    pub fn from_bytes_in(text: &'a str, bytes: &[u8], order: Endian) -> (r: Result<
        MultiDocIndex<'a>,
        Error,
    >)
        ensures
            loads_multi(text.spec_bytes(), text@, bytes@, order, r),
    {
        let n = bytes.len();
        if n < 12 {
            return Err(Error::InvalidIndex);
        }
        let foot = &bytes[n - 12..n];
        proof {
            assert(foot@ == bytes@.subrange(n - 12, n as int));
        }
        let sa_len = read_u32(foot, 0, order) as u64;
        let offsets_len = read_u32(foot, 1, order) as u64;
        let delim_len = read_u32(foot, 2, order) as u64;
        if 4 * sa_len + 4 * offsets_len + delim_len + 12 != n as u64 {
            return Err(Error::InvalidIndex);
        }
        let s = (4 * sa_len) as usize;
        let o = (4 * offsets_len) as usize;
        let dl = delim_len as usize;
        let sa_bytes = &bytes[0..s];
        let offsets_bytes = &bytes[s..s + o];
        let delim_bytes = &bytes[s + o..s + o + dl];
        proof {
            assert(footer(bytes@, 0, order) == sa_len);
            assert(footer(bytes@, 1, order) == offsets_len);
            assert(footer(bytes@, 2, order) == delim_len);
            assert(frame_ok(bytes@, order));
            assert(sa_bytes@ == bytes@.subrange(0, s as int));
            assert(offsets_bytes@ == bytes@.subrange(s as int, s + o));
            assert(delim_bytes@ == bytes@.subrange(s + o, s + o + dl));
            assert forall|k: int| 0 <= k < s / 4 implies u32_at(sa_bytes@, k, order) == u32_at(
                bytes@,
                k,
                order,
            ) by {
                assert(sa_bytes@[4 * k] == bytes@[4 * k]);
                assert(sa_bytes@[4 * k + 1] == bytes@[4 * k + 1]);
                assert(sa_bytes@[4 * k + 2] == bytes@[4 * k + 2]);
                assert(sa_bytes@[4 * k + 3] == bytes@[4 * k + 3]);
            }
        }
        let index = match Index::from_bytes_in(text, sa_bytes, order) {
            Ok(index) => index,
            Err(e) => {
                return Err(e);
            },
        };
        let offsets = decode_u32s(offsets_bytes, order);
        proof {
            assert(offsets@ =~= u32s_of(offsets_bytes@, order));
        }
        let tl = text.as_bytes().len();
        if !check_offsets(offsets.as_slice(), tl) {
            return Err(Error::InvalidIndex);
        }
        let ds = match str_from_utf8(delim_bytes) {
            Some(ds) => ds,
            None => {
                proof {
                    broadcast use group_utf8_lib;

                    if exists|d: char| delim_bytes@ == char_bytes(d) {
                        let d = choose|d: char| delim_bytes@ == char_bytes(d);
                        lemma_char_bytes_utf8(d);
                    }
                }
                return Err(Error::InvalidIndex);
            },
        };
        if ds.unicode_len() != 1 {
            proof {
                if exists|d: char| delim_bytes@ == char_bytes(d) {
                    let d = choose|d: char| delim_bytes@ == char_bytes(d);
                    lemma_char_bytes_utf8(d);
                    lemma_same_bytes_same_chars(ds, seq![d]);
                }
            }
            return Err(Error::InvalidIndex);
        }
        let c = ds.get_char(0);
        proof {
            lemma_one_char_bytes(ds);
            assert(sa_bytes@ == bytes@.subrange(0, s as int));
            lemma_stores_read(sa_bytes@, index.sa(), order);
            lemma_stores_read(offsets_bytes@, offsets@, order);
            let fl = seq![index.sa().len() as u32, offsets@.len() as u32, char_bytes(c).len() as u32];
            lemma_stores_read(foot@, fl, order);
        }
        Ok(MultiDocIndex { index, offsets, delimiter: c })
    }

    /// Binds `text` to a multi-document index stored in the byte order of the
    /// machine, as [`MultiDocIndex::from_bytes_in`] does with that order.
    pub fn from_bytes(text: &'a str, bytes: &[u8]) -> (r: Result<MultiDocIndex<'a>, Error>)
        ensures
            loads_multi(text.spec_bytes(), text@, bytes@, Endian::Little, r) || loads_multi(
                text.spec_bytes(),
                text@,
                bytes@,
                Endian::Big,
                r,
            ),
    {
        MultiDocIndex::from_bytes_in(text, bytes, host_endian())
    }

    /// The index of the joined text.
    pub fn index(&self) -> (r: &Index<'a>)
        ensures
            *r == self.spec_index(),
    {
        &self.index
    }

    /// How many entries the index holds for `query`; none for a query that
    /// holds the delimiter. Hits that cross a delimiter are counted too.
    pub fn freq(&self, query: &str) -> (r: usize)
        requires
            self.wf(),
        ensures
            holds_delim(query.spec_bytes(), self.delim()) ==> r == 0,
            !holds_delim(query.spec_bytes(), self.delim()) ==> exists|s: Seq<u32>|
                self.spec_index().positions_result(query.spec_bytes(), s) && r == s.len(),
    {
        let d = encode_char(self.delimiter);
        if occurs_in(query.as_bytes(), d.as_slice()) {
            0
        } else {
            self.index.positions(query).len()
        }
    }

    /// The hits of `query`, each as a document number and an offset in that
    /// document; none for a query that holds the delimiter.
    pub fn doc_positions(&self, query: &str) -> (r: DocPositions<'_>)
        requires
            self.wf(),
        ensures
            r.wf(),
            r.cursor() == 0,
            holds_delim(query.spec_bytes(), self.delim()) ==> r.rest().len() == 0,
            !holds_delim(query.spec_bytes(), self.delim()) ==> {
                &&& self.spec_index().positions_result(query.spec_bytes(), r.hits())
                &&& r.offsets() == self.offsets()
                &&& r.query_len() == query.spec_bytes().len()
                &&& r.delim_len() == char_bytes(self.delim()).len()
            },
    {
        let d = encode_char(self.delimiter);
        let q = query.as_bytes();
        if occurs_in(q, d.as_slice()) {
            let hits = &self.offsets.as_slice()[0..0];
            let r = DocPositions {
                hits,
                offsets: self.offsets.as_slice(),
                query_len: q.len(),
                delim_len: d.len(),
                cursor: 0,
            };
            proof {
                reveal(doc_hits);
                assert(r.hits().subrange(0, 0) =~= Seq::<u32>::empty());
            }
            return r;
        }
        DocPositions {
            hits: self.index.positions(query),
            offsets: self.offsets.as_slice(),
            query_len: q.len(),
            delim_len: d.len(),
            cursor: 0,
        }
    }

    /// The number of documents.
    pub fn num_docs(&self) -> (r: usize)
        ensures
            r == self.offsets().len(),
    {
        self.offsets.len()
    }

    /// Document `doc_id`: none past the last document, and none when the
    /// stored starts do not mark out a slice of the text at code-point
    /// boundaries.
    pub fn doc(&self, doc_id: u32) -> (r: Option<&str>)
        requires
            self.wf(),
        ensures
            doc_id >= self.offsets().len() ==> r is None,
            doc_id < self.offsets().len() ==> {
                let begin = self.offsets()[doc_id as int] as int;
                let end = doc_end(
                    self.offsets(),
                    doc_id as int,
                    self.spec_index().bytes().len() as int,
                    char_bytes(self.delim()).len() as int,
                );
                &&& r is Some <==> begin <= end && is_stop(self.spec_index().bytes(), begin)
                    && is_stop(self.spec_index().bytes(), end)
                &&& r matches Some(s) ==> s.spec_bytes() == self.spec_index().bytes().subrange(
                    begin,
                    end,
                )
            },
    {
        let k = doc_id as usize;
        if k >= self.offsets.len() {
            return None;
        }
        let text = self.index.text();
        let t = text.as_bytes();
        let begin = self.offsets[k] as usize;
        let end = if k == self.offsets.len() - 1 {
            t.len()
        } else {
            let d = encode_char(self.delimiter);
            let next = self.offsets[k + 1] as usize;
            if next < d.len() {
                return None;
            }
            next - d.len()
        };
        if begin > end || end > t.len() {
            return None;
        }
        if begin < t.len() && !is_leading_byte(t[begin]) {
            return None;
        }
        if end < t.len() && !is_leading_byte(t[end]) {
            return None;
        }
        Some(slice_str(text, begin, end))
    }
}

/// Settings for building a [`MultiDocIndex`] over an [`Index`].
#[derive(Clone, Debug)]
pub struct MultiDocIndexBuilder<'a> {
    index: Index<'a>,
    delimiter: char,
}

impl<'a> MultiDocIndexBuilder<'a> {
    /// The index of the joined text.
    pub closed spec fn spec_index(&self) -> Index<'a> {
        self.index
    }

    /// The delimiter.
    pub closed spec fn delim(&self) -> char {
        self.delimiter
    }

    /// A builder over `index`, with the newline as delimiter.
    pub fn new(index: Index<'a>) -> (r: MultiDocIndexBuilder<'a>)
        ensures
            r.spec_index() == index,
            r.delim() == '\n',
    {
        MultiDocIndexBuilder { index, delimiter: '\n' }
    }

    /// Sets the delimiter.
    pub fn delimiter(&mut self, delimiter: char) -> (r: &mut Self)
        ensures
            r.spec_index() == old(self).spec_index(),
            r.delim() == delimiter,
            *final(self) == *final(r),
    {
        self.delimiter = delimiter;
        self
    }

    /// The document starts: 0, then the offset just past each occurrence of the
    /// delimiter, in ascending order. Fails with `InvalidIndex` when the
    /// index gives occurrences that cannot be document starts, which a
    /// complete index never does.
    fn calc_offsets(&self) -> (r: Result<Vec<u32>, Error>)
        requires
            self.spec_index().wf(),
        ensures
            self.spec_index().is_complete() ==> r is Ok,
            r is Err ==> r == Err::<Vec<u32>, Error>(Error::InvalidIndex),
            r matches Ok(offsets) ==> offsets_starts(
                self.spec_index(),
                self.delim(),
                offsets@,
            ),
    {
        let d = encode_char(self.delimiter);
        let dl = d.len();
        let t = self.index.text().as_bytes();
        let hits = self.index.positions_of(d.as_slice());
        let sorted = sorted_u32(hits);
        let ghost complete = self.spec_index().is_complete();
        let ghost db = char_bytes(self.delimiter);
        proof {
            broadcast use vstd::seq_lib::group_seq_properties;

            hits@.to_multiset_ensures();
            sorted@.to_multiset_ensures();
            if complete {
                lemma_positions_distinct(&self.spec_index(), d@, hits@);
                hits@.lemma_multiset_has_no_duplicates();
                sorted@.lemma_multiset_has_no_duplicates_conv();
                assert forall|k: int| 0 <= k < sorted@.len() implies is_boundary(t@, sorted@[k] as int)
                    && occurs_at(t@, db, sorted@[k] as int) by {
                    assert(sorted@.contains(sorted@[k]));
                    assert(sorted@.to_multiset().count(sorted@[k]) > 0);
                    assert(hits@.contains(sorted@[k]));
                    let j = choose|j: int| 0 <= j < hits@.len() && hits@[j] == sorted@[k];
                    assert(has_entry(hits@, sorted@[k] as int));
                }
                assert forall|p: int| is_boundary(t@, p) && occurs_at(t@, db, p) implies #[trigger]
                    sorted@.contains(p as u32) by {
                    assert(has_entry(hits@, p));
                    let j = choose|j: int| 0 <= j < hits@.len() && hits@[j] == p;
                    assert(hits@.contains(p as u32));
                    assert(hits@.to_multiset().count(p as u32) > 0);
                }
            }
        }
        let mut offsets: Vec<u32> = Vec::new();
        offsets.push(0);
        let mut i: usize = 0;
        while i < sorted.len()
            invariant
                1 <= dl <= 4,
                d@ == db,
                dl == db.len(),
                t@ == self.spec_index().bytes(),
                t@.len() <= u32::MAX,
                complete == self.spec_index().is_complete(),
                i <= sorted@.len(),
                offsets@.len() == i + 1,
                offsets@[0] == 0,
                forall|k: int| 0 <= k < i ==> offsets@[k + 1] == sorted@[k] + dl,
                forall|a: int, b: int| 0 <= a < b < offsets@.len() ==> offsets@[a] < offsets@[b],
                forall|k: int| 0 <= k < offsets@.len() ==> offsets@[k] <= t@.len(),
                forall|a: int, b: int| 0 <= a < b < sorted@.len() ==> sorted@[a] <= sorted@[b],
                complete ==> sorted@.no_duplicates(),
                complete ==> forall|k: int|
                    0 <= k < sorted@.len() ==> is_boundary(t@, sorted@[k] as int) && occurs_at(
                        t@,
                        db,
                        sorted@[k] as int,
                    ),
            decreases sorted@.len() - i,
        {
            let x = sorted[i];
            let last = offsets[offsets.len() - 1];
            proof {
                if complete && i > 0 {
                    assert(sorted@[i - 1] != sorted@[i as int]);
                }
            }
            if (x as u64) + (dl as u64) > t.len() as u64 || (x as u64) + (dl as u64) <= last as u64 {
                return Err(Error::InvalidIndex);
            }
            offsets.push((x as usize + dl) as u32);
            i = i + 1;
        }
        proof {
            if complete {
                assert forall|k: int| 1 <= k < offsets@.len() implies offsets@[k] >= db.len()
                    && occurs_at(t@, db, offsets@[k] - db.len()) && is_boundary(
                    t@,
                    offsets@[k] - db.len(),
                ) by {
                    assert(offsets@[k] == sorted@[k - 1] + dl);
                }
                assert forall|p: int| is_boundary(t@, p) && occurs_at(t@, db, p) implies exists|k: int|
                    1 <= k < offsets@.len() && offsets@[k] == p + db.len() by {
                    assert(sorted@.contains(p as u32));
                    let j = choose|j: int| 0 <= j < sorted@.len() && sorted@[j] == p as u32;
                    assert(offsets@[j + 1] == p + db.len());
                }
            }
        }
        Ok(offsets)
    }

    /// The multi-document index as bytes in the byte order `order`: the
    /// suffix array, the document starts, the delimiter, and a footer of their
    /// three lengths. Fails with `InvalidIndex` where `build` does, and when a
    /// length does not fit in a `u32`.
    pub fn to_bytes(&self, order: Endian) -> (r: Result<Vec<u8>, Error>)
        requires
            self.spec_index().wf(),
        ensures
            r is Err ==> r == Err::<Vec<u8>, Error>(Error::InvalidIndex),
            self.spec_index().is_complete() && self.spec_index().sa().len() <= u32::MAX
                && self.spec_index().bytes().len() < u32::MAX ==> r is Ok,
            r matches Ok(b) ==> exists|offsets: Seq<u32>|
                offsets_starts(self.spec_index(), self.delim(), offsets) && stores_multi(
                    b@,
                    self.spec_index().sa(),
                    offsets,
                    char_bytes(self.delim()),
                    order,
                ),
    {
        let offsets = match self.calc_offsets() {
            Ok(offsets) => offsets,
            Err(e) => {
                return Err(e);
            },
        };
        let sa = self.index.suffix_array();
        proof {
            lemma_offsets_grow(offsets@, offsets@.len() - 1);
        }
        if sa.len() > u32::MAX as usize || offsets.len() > u32::MAX as usize {
            return Err(Error::InvalidIndex);
        }
        let d = encode_char(self.delimiter);
        let mut sa_part: Vec<u8> = Vec::new();
        push_u32s(&mut sa_part, sa, order);
        let mut offsets_part: Vec<u8> = Vec::new();
        push_u32s(&mut offsets_part, offsets.as_slice(), order);
        let mut footer_part: Vec<u8> = Vec::new();
        push_u32(&mut footer_part, sa.len() as u32, order);
        push_u32(&mut footer_part, offsets.len() as u32, order);
        push_u32(&mut footer_part, d.len() as u32, order);
        let mut out: Vec<u8> = Vec::new();
        append_bytes(&mut out, sa_part.as_slice());
        append_bytes(&mut out, offsets_part.as_slice());
        append_bytes(&mut out, d.as_slice());
        append_bytes(&mut out, footer_part.as_slice());
        proof {
            assert(sa_part@.subrange(0, sa_part@.len() as int) =~= sa_part@);
            assert(offsets_part@.subrange(0, offsets_part@.len() as int) =~= offsets_part@);
            let fl = seq![sa@.len() as u32, offsets@.len() as u32, d@.len() as u32];
            assert forall|k: int| #![trigger fl[k]] 0 <= k < fl.len() implies footer_part@.subrange(
                4 * k,
                4 * k + 4,
            ) == bytes_of_u32(fl[k], order) by {
                assert(footer_part@.subrange(0, 4) =~= bytes_of_u32(fl[0], order));
                assert(footer_part@.subrange(4, 8) =~= bytes_of_u32(fl[1], order));
                assert(footer_part@.subrange(8, 12) =~= bytes_of_u32(fl[2], order));
            }
            lemma_stores_multi(sa_part@, offsets_part@, d@, footer_part@, sa@, offsets@, order);
        }
        Ok(out)
    }

    /// Builds the multi-document index.
    pub fn build(&self) -> (r: Result<MultiDocIndex<'a>, Error>)
        requires
            self.spec_index().wf(),
        ensures
            self.spec_index().is_complete() ==> r is Ok,
            r is Err ==> r == Err::<MultiDocIndex<'a>, Error>(Error::InvalidIndex),
            r matches Ok(m) ==> {
                &&& m.wf()
                &&& m.spec_index().same(&self.spec_index())
                &&& m.delim() == self.delim()
                &&& offsets_starts(self.spec_index(), self.delim(), m.offsets())
            },
    {
        match self.calc_offsets() {
            Ok(offsets) => Ok(
                MultiDocIndex { index: self.index.copy(), offsets, delimiter: self.delimiter },
            ),
            Err(e) => Err(e),
        }
    }
}

/// Integers stored in the same bytes are the same integers.
proof fn lemma_stores_same(b: Seq<u8>, xs: Seq<u32>, ys: Seq<u32>, e: Endian)
    requires
        stores(b, xs, e),
        stores(b, ys, e),
    ensures
        xs == ys,
{
    lemma_decode_stored(b, xs, e);
    lemma_decode_stored(b, ys, e);
    assert(xs =~= ys);
}

/// Round trip: a multi-document index over a complete index, with document
/// starts `offsets` as [`MultiDocIndexBuilder::build`] gives them, stored by
/// [`MultiDocIndexBuilder::to_bytes`] in the byte order `e` (`b`) and loaded
/// back in that order with its text ([`MultiDocIndex::from_bytes_in`], `r`),
/// has the same suffix array, document starts and delimiter.
pub proof fn lemma_multi_round_trip(
    idx: &Index,
    d: char,
    offsets: Seq<u32>,
    b: Seq<u8>,
    e: Endian,
    r: Result<MultiDocIndex, Error>,
)
    requires
        idx.wf(),
        idx.is_complete(),
        offsets_starts(*idx, d, offsets),
        offsets.len() <= u32::MAX,
        stores_multi(b, idx.sa(), offsets, char_bytes(d), e),
        loads_multi(idx.bytes(), idx.chars(), b, e, r),
    ensures
        r matches Ok(m) && m.spec_index().sa() == idx.sa() && m.offsets() == offsets && m.delim()
            == d,
{
    let sa = idx.sa();
    let db = char_bytes(d);
    let s = 4 * sa.len() as int;
    let o = 4 * offsets.len() as int;
    let foot = b.subrange(b.len() - 12, b.len() as int);
    let fl = seq![sa.len() as u32, offsets.len() as u32, db.len() as u32];
    lemma_suffix_array_len(idx.bytes(), sa);
    lemma_decode_stored(foot, fl, e);
    assert(footer(b, 0, e) == sa.len() && footer(b, 1, e) == offsets.len() && footer(b, 2, e)
        == db.len());
    let sa_part = b.subrange(0, s);
    let offsets_part = b.subrange(s, s + o);
    lemma_decode_stored(sa_part, sa, e);
    lemma_decode_stored(offsets_part, offsets, e);
    assert forall|k: int| 0 <= k < s / 4 implies is_boundary(idx.bytes(), u32_at(b, k, e) as int) by {
        assert(sa_part[4 * k] == b[4 * k] && sa_part[4 * k + 1] == b[4 * k + 1] && sa_part[4 * k
            + 2] == b[4 * k + 2] && sa_part[4 * k + 3] == b[4 * k + 3]);
        assert(u32_at(sa_part, k, e) == sa[k]);
    }
    assert(u32s_of(offsets_part, e) =~= offsets);
    assert(b.subrange(s + o, s + o + db.len()) == char_bytes(d));
    if let Ok(m) = r {
        lemma_stores_same(sa_part, m.spec_index().sa(), sa, e);
        lemma_stores_same(offsets_part, m.offsets(), offsets, e);
        lemma_char_bytes_utf8(d);
        lemma_char_bytes_utf8(m.delim());
        assert(seq![m.delim()][0] == seq![d][0]);
    }
}

/// The bytes of a character after its first are continuation bytes, and its
/// first byte announces how many there are.
proof fn lemma_char_bytes_shape(d: char)
    ensures
        1 <= char_bytes(d).len() <= 4,
        forall|s: Seq<u8>|
            s.len() > 0 && s[0] == char_bytes(d)[0] ==> #[trigger] length_of_first_codepoint(s)
                == char_bytes(d).len(),
        forall|i: int| 1 <= i < char_bytes(d).len() ==> is_continuation_byte(char_bytes(d)[i]),
        !is_continuation_byte(char_bytes(d)[0]),
{
    broadcast use group_utf8_lib;

    let v = d as u32;
    assert(vstd::utf8::is_scalar(v));
    if v <= 0x7F {
        assert(((v & 0x7F) as u8) <= 0x7F) by (bit_vector);
    } else if v <= 0x7FF {
        assert(0xC0 <= (0xC0 | ((v >> 6) & 0x1F) as u8) <= 0xDF) by (bit_vector);
        assert(0x80 <= (0x80 | (v & 0x3F) as u8) <= 0xBF) by (bit_vector);
    } else if v <= 0xFFFF {
        assert(0xE0 <= (0xE0 | ((v >> 12) & 0x0F) as u8) <= 0xEF) by (bit_vector);
        assert(0x80 <= (0x80 | ((v >> 6) & 0x3F) as u8) <= 0xBF) by (bit_vector);
        assert(0x80 <= (0x80 | (v & 0x3F) as u8) <= 0xBF) by (bit_vector);
    } else {
        assert(0xF0 <= (0xF0 | ((v >> 18) & 0x7) as u8) <= 0xF7) by (bit_vector);
        assert(0x80 <= (0x80 | ((v >> 12) & 0x3F) as u8) <= 0xBF) by (bit_vector);
        assert(0x80 <= (0x80 | ((v >> 6) & 0x3F) as u8) <= 0xBF) by (bit_vector);
        assert(0x80 <= (0x80 | (v & 0x3F) as u8) <= 0xBF) by (bit_vector);
    }
}

/// In valid UTF-8, the offset just past a whole character that starts at a
/// code-point start is a code-point start or the end.
proof fn lemma_char_end_is_stop(t: Seq<u8>, d: char, p: int)
    requires
        valid_utf8(t),
        is_boundary(t, p),
        occurs_at(t, char_bytes(d), p),
    ensures
        is_stop(t, p + char_bytes(d).len()),
{
    broadcast use group_utf8_lib;

    let db = char_bytes(d);
    let u = t.subrange(p, t.len() as int);
    lemma_char_bytes_shape(d);
    assert(is_char_boundary(t, p));
    assert(valid_utf8(u));
    assert(u[0] == t.subrange(p, p + db.len())[0]);
    assert(length_of_first_codepoint(u) == db.len());
    assert(is_char_boundary(vstd::utf8::pop_first_scalar(u), 0));
    assert(is_char_boundary(u, db.len() as int));
    if p + db.len() < t.len() {
        assert(u[db.len() as int] == t[p + db.len()]);
    }
}

/// Two occurrences of a character at code-point starts do not overlap.
proof fn lemma_char_occurrences_apart(t: Seq<u8>, d: char, p: int, q: int)
    requires
        is_boundary(t, p),
        is_boundary(t, q),
        occurs_at(t, char_bytes(d), p),
        p < q,
    ensures
        p + char_bytes(d).len() <= q,
{
    lemma_char_bytes_shape(d);
    if q < p + char_bytes(d).len() {
        assert(t[q] == t.subrange(p, p + char_bytes(d).len())[q - p]);
    }
}

/// The document starts of a complete index split its text into documents:
/// each is a slice between code-point boundaries, holds no occurrence of the
/// delimiter, and is followed, but for the last, by exactly one delimiter and
/// then the next document. So `doc` returns every document.
pub proof fn lemma_documents_partition(idx: &Index, d: char, offsets: Seq<u32>, k: int)
    requires
        idx.wf(),
        idx.is_complete(),
        offsets_starts(*idx, d, offsets),
        0 <= k < offsets.len(),
    ensures
        ({
            let t = idx.bytes();
            let db = char_bytes(d);
            let begin = offsets[k] as int;
            let end = doc_end(offsets, k, t.len() as int, db.len() as int);
            &&& begin <= end
            &&& is_stop(t, begin)
            &&& is_stop(t, end)
            &&& forall|p: int|
                begin <= p && p + db.len() <= end ==> !(is_boundary(t, p) && occurs_at(t, db, p))
            &&& k + 1 < offsets.len() ==> occurs_at(t, db, end) && end + db.len() == offsets[k + 1]
        }),
{
    let t = idx.bytes();
    let db = char_bytes(d);
    lemma_index_text_utf8(idx);
    lemma_char_bytes_shape(d);
    if k == 0 {
        if t.len() > 0 {
            broadcast use group_utf8_lib;

            assert(is_char_boundary(t, 0));
        }
    } else {
        lemma_char_end_is_stop(t, d, offsets[k] - db.len());
    }
    if k + 1 < offsets.len() {
        let q = offsets[k + 1] - db.len();
        assert(offsets[k] < offsets[k + 1]);
        if k > 0 {
            lemma_char_occurrences_apart(t, d, offsets[k] - db.len(), q);
        }
    }
    let end = doc_end(offsets, k, t.len() as int, db.len() as int);
    assert forall|p: int|
        offsets[k] <= p && p + db.len() <= end implies !(is_boundary(t, p) && occurs_at(t, db, p)) by {
        if is_boundary(t, p) && occurs_at(t, db, p) {
            let j = choose|j: int| 1 <= j < offsets.len() && offsets[j] == p + db.len();
            if j <= k {
                assert(offsets[j] <= offsets[k]);
            } else {
                assert(offsets[k + 1] <= offsets[j]);
            }
        }
    }
}

/// What `doc_hits` holds: the hits that stay inside their document, as
/// document numbers and offsets.
proof fn lemma_doc_hits_members(offsets: Seq<u32>, dlen: int, qlen: int, hits: Seq<u32>)
    ensures
        forall|x: (u32, u32)|
            doc_hits(offsets, dlen, qlen, hits).contains(x) <==> exists|i: int|
                0 <= i < hits.len() && inside_doc(offsets, dlen, qlen, hits[i] as int) && x
                    == doc_hit(offsets, hits[i] as int),
    decreases hits.len(),
{
    reveal(doc_hits);
    if hits.len() > 0 {
        let prev = hits.drop_last();
        lemma_doc_hits_members(offsets, dlen, qlen, prev);
        let p = hits.last() as int;
        assert forall|x: (u32, u32)|
            doc_hits(offsets, dlen, qlen, hits).contains(x) <==> exists|i: int|
                0 <= i < hits.len() && inside_doc(offsets, dlen, qlen, hits[i] as int) && x
                    == doc_hit(offsets, hits[i] as int) by {
            let all = doc_hits(offsets, dlen, qlen, hits);
            let before = doc_hits(offsets, dlen, qlen, prev);
            if all.contains(x) {
                if inside_doc(offsets, dlen, qlen, p) {
                    let j = choose|j: int| 0 <= j < all.len() && all[j] == x;
                    if j < before.len() {
                        assert(before[j] == x);
                        assert(before.contains(x));
                        let i = choose|i: int|
                            0 <= i < prev.len() && inside_doc(offsets, dlen, qlen, prev[i] as int)
                                && x == doc_hit(offsets, prev[i] as int);
                        assert(hits[i] == prev[i]);
                    } else {
                        assert(hits[hits.len() - 1] as int == p);
                    }
                } else {
                    let i = choose|i: int|
                        0 <= i < prev.len() && inside_doc(offsets, dlen, qlen, prev[i] as int) && x
                            == doc_hit(offsets, prev[i] as int);
                    assert(hits[i] == prev[i]);
                }
            }
            if exists|i: int|
                0 <= i < hits.len() && inside_doc(offsets, dlen, qlen, hits[i] as int) && x
                    == doc_hit(offsets, hits[i] as int) {
                let i = choose|i: int|
                    0 <= i < hits.len() && inside_doc(offsets, dlen, qlen, hits[i] as int) && x
                        == doc_hit(offsets, hits[i] as int);
                if i < prev.len() {
                    assert(prev[i] == hits[i]);
                    assert(before.contains(x));
                    let j = choose|j: int| 0 <= j < before.len() && before[j] == x;
                    if inside_doc(offsets, dlen, qlen, p) {
                        assert(all[j] == x);
                    }
                } else {
                    assert(all[all.len() - 1] == x);
                }
            }
        }
    }
}

/// The hits of a query as document numbers and offsets: on a complete index,
/// for a non-empty query that does not hold the delimiter, `doc_positions`
/// hands out exactly the pairs `(k, p - offsets[k])` for each occurrence `p`
/// of the query at a code-point start that ends before the delimiter that
/// closes its document `k`.
pub proof fn lemma_doc_positions_members(m: &MultiDocIndex, q: Seq<u8>, dp: DocPositions)
    requires
        m.wf(),
        m.spec_index().is_complete(),
        q.len() > 0,
        !holds_delim(q, m.delim()),
        m.spec_index().positions_result(q, dp.hits()),
        dp.offsets() == m.offsets(),
        dp.query_len() == q.len(),
        dp.delim_len() == char_bytes(m.delim()).len(),
        dp.cursor() == 0,
    ensures
        forall|x: (u32, u32)|
            dp.rest().contains(x) <==> exists|p: int|
                is_boundary(m.spec_index().bytes(), p) && occurs_at(m.spec_index().bytes(), q, p)
                    && inside_doc(m.offsets(), char_bytes(m.delim()).len() as int, q.len() as int, p)
                    && x == doc_hit(m.offsets(), p),
{
    let idx = m.spec_index();
    let t = idx.bytes();
    let hits = dp.hits();
    let o = m.offsets();
    let dl = char_bytes(m.delim()).len() as int;
    assert(hits.subrange(0, hits.len() as int) =~= hits);
    lemma_doc_hits_members(o, dl, q.len() as int, hits);
    let (lo, hi) = choose|lo: int, hi: int|
        #![trigger idx.sa().subrange(lo, hi)]
        0 <= lo <= hi <= idx.sa().len() && hits == idx.sa().subrange(lo, hi) && (q.len() == 0 ==> lo
            == hi) && (sorted_by_suffix(idx.bytes(), idx.sa()) && q.len() > 0 ==> is_match_range(
            t,
            idx.sa(),
            q,
            lo,
            hi,
        ));
    assert forall|x: (u32, u32)|
        dp.rest().contains(x) <==> exists|p: int|
            is_boundary(t, p) && occurs_at(t, q, p) && inside_doc(o, dl, q.len() as int, p) && x
                == doc_hit(o, p) by {
        if dp.rest().contains(x) {
            let i = choose|i: int|
                0 <= i < hits.len() && inside_doc(o, dl, q.len() as int, hits[i] as int) && x
                    == doc_hit(o, hits[i] as int);
            let p = hits[i] as int;
            assert(hits[i] == idx.sa()[lo + i]);
            lemma_prefix_of_suffix(t, q, p);
            assert(is_boundary(t, p) && occurs_at(t, q, p));
        }
        if exists|p: int|
            is_boundary(t, p) && occurs_at(t, q, p) && inside_doc(o, dl, q.len() as int, p) && x
                == doc_hit(o, p) {
            let p = choose|p: int|
                is_boundary(t, p) && occurs_at(t, q, p) && inside_doc(o, dl, q.len() as int, p)
                    && x == doc_hit(o, p);
            assert(has_entry(idx.sa(), p));
            let j = choose|j: int| 0 <= j < idx.sa().len() && idx.sa()[j] == p;
            lemma_prefix_of_suffix(t, q, p);
            assert(hits[j - lo] == p);
        }
    }
}

/// Some document holds each offset of the text: `doc_of` names it.
proof fn lemma_doc_of_holds(offsets: Seq<u32>, p: int, j: int)
    requires
        offsets_wf(offsets, offsets[offsets.len() - 1] as int),
        0 <= p,
        0 <= j < offsets.len(),
        j + 1 == offsets.len() || p < offsets[j + 1],
    ensures
        holds_offset(offsets, p, doc_of(offsets, p)),
    decreases j,
{
    if offsets[j] <= p {
        assert(holds_offset(offsets, p, j));
    } else {
        lemma_doc_of_holds(offsets, p, j - 1);
    }
}

/// A non-empty proper prefix of the bytes of a character is not UTF-8.
proof fn lemma_partial_char_invalid(d: char, u: Seq<u8>)
    requires
        1 <= u.len() < char_bytes(d).len(),
        u == char_bytes(d).subrange(0, u.len() as int),
    ensures
        !valid_utf8(u),
{
    lemma_char_bytes_shape(d);
    assert(u[0] == char_bytes(d)[0]);
    assert(length_of_first_codepoint(u) == char_bytes(d).len());
    reveal_with_fuel(valid_utf8, 1);
}

/// On a complete index split at `d`, an occurrence at a code-point start of a
/// non-empty UTF-8 query that holds no `d` ends before the delimiter that
/// closes its document: `doc_positions` drops no such hit.
pub proof fn lemma_hits_inside_docs(idx: &Index, d: char, offsets: Seq<u32>, q: Seq<u8>, p: int)
    requires
        idx.wf(),
        idx.is_complete(),
        offsets_starts(*idx, d, offsets),
        valid_utf8(q),
        q.len() > 0,
        !holds_delim(q, d),
        is_boundary(idx.bytes(), p),
        occurs_at(idx.bytes(), q, p),
    ensures
        inside_doc(offsets, char_bytes(d).len() as int, q.len() as int, p),
        holds_offset(offsets, p, doc_of(offsets, p)),
{
    broadcast use group_utf8_lib;

    let t = idx.bytes();
    let db = char_bytes(d);
    lemma_doc_of_holds(offsets, p, offsets.len() - 1);
    let k = doc_of(offsets, p);
    lemma_char_bytes_shape(d);
    if k + 1 < offsets.len() && p + q.len() + db.len() > offsets[k + 1] {
        let dpos = offsets[k + 1] - db.len();
        assert(occurs_at(t, db, dpos) && is_boundary(t, dpos));
        if p > dpos {
            lemma_char_occurrences_apart(t, d, dpos, p);
        } else {
            let j = dpos - p;
            if p + q.len() >= dpos + db.len() {
                assert(q.subrange(j, j + db.len()) =~= t.subrange(dpos, dpos + db.len()));
                assert(occurs_at(q, db, j));
            } else {
                let u = q.subrange(j, q.len() as int);
                assert(u =~= t.subrange(dpos, p + q.len()));
                assert(u =~= db.subrange(0, u.len() as int));
                assert(q[j] == t[dpos]);
                assert(is_char_boundary(q, j));
                assert(valid_utf8(u));
                lemma_partial_char_invalid(d, u);
            }
        }
    }
}

/// When every hit stays inside its document, `doc_hits` keeps them all, in
/// order.
proof fn lemma_doc_hits_all(offsets: Seq<u32>, dlen: int, qlen: int, hits: Seq<u32>)
    requires
        forall|i: int| 0 <= i < hits.len() ==> inside_doc(offsets, dlen, qlen, hits[i] as int),
    ensures
        doc_hits(offsets, dlen, qlen, hits).len() == hits.len(),
        forall|i: int|
            0 <= i < hits.len() ==> doc_hits(offsets, dlen, qlen, hits)[i] == doc_hit(
                offsets,
                hits[i] as int,
            ),
    decreases hits.len(),
{
    reveal(doc_hits);
    if hits.len() > 0 {
        let prev = hits.drop_last();
        assert forall|i: int| 0 <= i < prev.len() implies inside_doc(
            offsets,
            dlen,
            qlen,
            prev[i] as int,
        ) by {
            assert(prev[i] == hits[i]);
        }
        lemma_doc_hits_all(offsets, dlen, qlen, prev);
        assert(inside_doc(offsets, dlen, qlen, hits[hits.len() - 1] as int));
        assert forall|i: int| 0 <= i < hits.len() implies doc_hits(offsets, dlen, qlen, hits)[i]
            == doc_hit(offsets, hits[i] as int) by {
            if i < prev.len() {
                assert(prev[i] == hits[i]);
            }
        }
    }
}

/// No hit is dropped: on a multi-document index over a complete index, for a
/// non-empty UTF-8 query that holds no delimiter, `doc_positions` hands out
/// one pair per entry that `positions` (and so `freq`) gives, in the same
/// order; the pair `(k, o)` stands for the offset `offsets[k] + o`.
pub proof fn lemma_no_hit_dropped(m: &MultiDocIndex, q: Seq<u8>, dp: DocPositions, s: Seq<u32>)
    requires
        m.wf(),
        m.spec_index().is_complete(),
        offsets_starts(m.spec_index(), m.delim(), m.offsets()),
        valid_utf8(q),
        q.len() > 0,
        !holds_delim(q, m.delim()),
        m.spec_index().positions_result(q, dp.hits()),
        dp.offsets() == m.offsets(),
        dp.query_len() == q.len(),
        dp.delim_len() == char_bytes(m.delim()).len(),
        dp.cursor() == 0,
        m.spec_index().positions_result(q, s),
    ensures
        dp.rest().len() == dp.hits().len(),
        s.len() == dp.hits().len(),
        forall|i: int|
            #![trigger dp.hits()[i]]
            0 <= i < dp.hits().len() ==> dp.rest()[i].0 < m.offsets().len() && m.offsets()[dp.rest()[i].0 as int]
                + dp.rest()[i].1 == dp.hits()[i],
{
    let idx = m.spec_index();
    let t = idx.bytes();
    let hits = dp.hits();
    let o = m.offsets();
    let dl = char_bytes(m.delim()).len() as int;
    assert(hits.subrange(0, hits.len() as int) =~= hits);
    let (lo, hi) = choose|lo: int, hi: int|
        #![trigger idx.sa().subrange(lo, hi)]
        0 <= lo <= hi <= idx.sa().len() && hits == idx.sa().subrange(lo, hi) && (q.len() == 0 ==> lo
            == hi) && (sorted_by_suffix(idx.bytes(), idx.sa()) && q.len() > 0 ==> is_match_range(
            t,
            idx.sa(),
            q,
            lo,
            hi,
        ));
    let (lo2, hi2) = choose|lo2: int, hi2: int|
        #![trigger idx.sa().subrange(lo2, hi2)]
        0 <= lo2 <= hi2 <= idx.sa().len() && s == idx.sa().subrange(lo2, hi2) && (q.len() == 0
            ==> lo2 == hi2) && (sorted_by_suffix(idx.bytes(), idx.sa()) && q.len() > 0
            ==> is_match_range(t, idx.sa(), q, lo2, hi2));
    let sa = idx.sa();
    assert(sorted_by_suffix(t, sa));
    if lo < hi {
        assert(is_prefix(q, suffix(t, sa[lo] as int)));
        assert(is_prefix(q, suffix(t, sa[hi - 1] as int)));
    }
    if lo2 < hi2 {
        assert(is_prefix(q, suffix(t, sa[lo2] as int)));
        assert(is_prefix(q, suffix(t, sa[hi2 - 1] as int)));
    }
    assert(hi - lo == hi2 - lo2);
    assert forall|i: int| 0 <= i < hits.len() implies inside_doc(o, dl, q.len() as int, hits[i] as int)
        && holds_offset(o, hits[i] as int, doc_of(o, hits[i] as int)) by {
        let p = hits[i] as int;
        assert(hits[i] == idx.sa()[lo + i]);
        lemma_prefix_of_suffix(t, q, p);
        lemma_hits_inside_docs(&idx, m.delim(), o, q, p);
    }
    lemma_doc_hits_all(o, dl, q.len() as int, hits);
    assert forall|i: int| #![trigger hits[i]] 0 <= i < hits.len() implies dp.rest()[i].0 < o.len()
        && o[dp.rest()[i].0 as int] + dp.rest()[i].1 == hits[i] by {
        let p = hits[i] as int;
        let k = doc_of(o, p);
        lemma_offsets_grow(o, k);
    }
}

} // verus!
