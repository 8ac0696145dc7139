//! Building the suffix array of a text: whole, or block by block with a merge.
use vstd::prelude::*;
use vstd::string::StringSliceAdditionalSpecFns;
use crate::lex::{
    compare_bytes, has_entry, is_boundary, is_leading_byte, is_stop, is_substring,
    is_suffix_array, lemma_lex_trans, lemma_lex_trichotomy, lemma_str_starts_at_stop,
    lemma_suffixes_distinct, lex_le, lex_lt, occurs_in, slice_str, snap_to_stop,
    sorted_by_suffix, suffix,
};

verus! {

/// Relies on suffix::SuffixTable::new (SA-IS over the bytes of the text): its
/// table lists every byte offset of the text once, ordered by the suffix that
/// starts there. It panics on texts longer than `u32::MAX` bytes.
#[verifier::external_body]
fn suffix_table(text: &str) -> (r: Vec<u32>)
    requires
        text.spec_bytes().len() <= u32::MAX,
    ensures
        r@.len() == text.spec_bytes().len(),
        forall|i: int| 0 <= i < r@.len() ==> r@[i] < text.spec_bytes().len(),
        forall|x: int| 0 <= x < text.spec_bytes().len() ==> has_entry(r@, x),
        sorted_by_suffix(text.spec_bytes(), r@),
{
    suffix::SuffixTable::new(text).table().to_vec()
}

/// The code-point starts of `w` below `len`, ordered by the suffix of `w` that
/// starts there.
pub open spec fn sorted_starts(w: Seq<u8>, len: int, r: Seq<u32>) -> bool {
    &&& sorted_by_suffix(w, r)
    &&& forall|i: int| 0 <= i < r.len() ==> r[i] < len && is_boundary(w, r[i] as int)
    &&& forall|x: int| 0 <= x < len && is_boundary(w, x) ==> has_entry(r, x)
}

/// Sorts the suffixes of `window` and keeps the code-point starts below `len`.
fn sort_window(window: &str, len: usize) -> (r: Vec<u32>)
    requires
        window.spec_bytes().len() <= u32::MAX,
        len <= window.spec_bytes().len(),
    ensures
        sorted_starts(window.spec_bytes(), len as int, r@),
{
    let w = window.as_bytes();
    let table = suffix_table(window);
    let mut r: Vec<u32> = Vec::new();
    let mut i: usize = 0;
    while i < table.len()
        invariant
            w@ == window.spec_bytes(),
            table@.len() == w@.len(),
            len <= w@.len(),
            i <= table@.len(),
            forall|k: int| 0 <= k < table@.len() ==> table@[k] < w@.len(),
            sorted_by_suffix(w@, table@),
            forall|x: int| 0 <= x < w@.len() ==> has_entry(table@, x),
            sorted_by_suffix(w@, r@),
            forall|k: int, j: int|
                0 <= k < r@.len() && i <= j < table@.len() ==> lex_lt(
                    suffix(w@, r@[k] as int),
                    suffix(w@, table@[j] as int),
                ),
            forall|k: int| 0 <= k < r@.len() ==> r@[k] < len && is_boundary(w@, r@[k] as int),
            forall|k: int|
                0 <= k < i && table@[k] < len && is_boundary(w@, table@[k] as int) ==> has_entry(
                    r@,
                    table@[k] as int,
                ),
        decreases table.len() - i,
    {
        let x = table[i];
        let ghost r0 = r@;
        if (x as usize) < len && is_leading_byte(w[x as usize]) {
            r.push(x);
            proof {
                assert(r@ == r0.push(x));
                assert forall|k: int, l: int| 0 <= k < l < r@.len() implies lex_lt(
                    suffix(w@, r@[k] as int),
                    suffix(w@, r@[l] as int),
                ) by {
                    if l == r@.len() - 1 {
                        assert(r@[k] == r0[k]);
                    } else {
                        assert(r@[k] == r0[k] && r@[l] == r0[l]);
                    }
                }
            }
        }
        proof {
            assert forall|k: int, j: int|
                0 <= k < r@.len() && i + 1 <= j < table@.len() implies lex_lt(
                suffix(w@, r@[k] as int),
                suffix(w@, table@[j] as int),
            ) by {
                if k < r0.len() {
                    assert(r@[k] == r0[k]);
                } else {
                    assert(r@[k] == table@[i as int]);
                }
            }
        }
        proof {
            assert forall|k: int|
                0 <= k < i + 1 && table@[k] < len && is_boundary(w@, table@[k] as int) implies has_entry(
                r@,
                table@[k] as int,
            ) by {
                if k < i {
                    let j = choose|j: int| 0 <= j < r0.len() && r0[j] == table@[k];
                    assert(r@[j] == table@[k]);
                } else {
                    assert(r@[r@.len() - 1] == table@[k]);
                }
            }
        }
        i = i + 1;
    }
    proof {
        assert forall|x: int| 0 <= x < len && is_boundary(w@, x) implies has_entry(r@, x) by {
            assert(has_entry(table@, x));
            let k = choose|k: int| 0 <= k < table@.len() && table@[k] == x;
        }
    }
    r
}

/// `r` is the tail length for a block `blk` followed by the rest `pat` of the
/// text: the shortest prefix of `pat` that ends at a code-point boundary and
/// does not occur in `blk`; none when every such prefix occurs in `blk`.
pub open spec fn tail_ok(blk: Seq<u8>, pat: Seq<u8>, r: Option<int>) -> bool {
    match r {
        Some(l) => {
            &&& 1 <= l <= pat.len()
            &&& is_stop(pat, l)
            &&& !is_substring(pat.subrange(0, l), blk)
            &&& forall|m: int|
                1 <= m < l && is_stop(pat, m) ==> is_substring(pat.subrange(0, m), blk)
        },
        None => forall|m: int|
            1 <= m <= pat.len() && is_stop(pat, m) ==> is_substring(pat.subrange(0, m), blk),
    }
}

/// The tail length of the block `blk` followed by `pat`, found by naive search.
fn calc_tail_len(blk: &[u8], pat: &[u8]) -> (r: Option<usize>)
    requires
        pat@.len() >= 1,
    ensures
        tail_ok(
            blk@,
            pat@,
            match r {
                Some(l) => Some(l as int),
                None => None,
            },
        ),
{
    let mut l = snap_to_stop(pat, 1);
    while l <= pat.len()
        invariant
            1 <= l <= pat@.len(),
            is_stop(pat@, l as int),
            forall|m: int|
                1 <= m < l && is_stop(pat@, m) ==> is_substring(pat@.subrange(0, m), blk@),
        decreases pat@.len() - l,
    {
        let head = &pat[0..l];
        if !occurs_in(blk, head) {
            return Some(l);
        }
        if l == pat.len() {
            return None;
        }
        let next = snap_to_stop(pat, l + 1);
        proof {
            assert forall|m: int|
                1 <= m < next && is_stop(pat@, m) implies is_substring(pat@.subrange(0, m), blk@) by {
                if m == l {
                    assert(head@ =~= pat@.subrange(0, m));
                }
            }
        }
        l = next;
    }
    None
}

/// Entries of `lists[k1]` are below those of `lists[k2]` for `k1 < k2`.
pub open spec fn lists_ascending(lists: Seq<Vec<u32>>) -> bool {
    forall|k1: int, k2: int, i: int, j: int|
        0 <= k1 < k2 < lists.len() && 0 <= i < lists[k1]@.len() && 0 <= j < lists[k2]@.len()
            ==> lists[k1]@[i] < lists[k2]@[j]
}

/// `x` is an entry of one of `lists`.
pub open spec fn in_lists(lists: Seq<Vec<u32>>, x: int) -> bool {
    exists|k: int, i: int| 0 <= k < lists.len() && 0 <= i < lists[k]@.len() && lists[k]@[i] == x
}

/// The entries of `list` are ordered by the suffixes of `t` that start
/// there, found by comparing each with the next.
fn ordered_by_suffix(t: &[u8], list: &[u32]) -> (r: bool)
    requires
        forall|k: int| 0 <= k < list@.len() ==> list@[k] <= t@.len(),
    ensures
        r ==> sorted_by_suffix(t@, list@),
{
    let mut i: usize = 1;
    while i < list.len()
        invariant
            1 <= i,
            forall|k: int| 0 <= k < list@.len() ==> list@[k] <= t@.len(),
            forall|k: int, l: int|
                0 <= k < l < i && l < list@.len() ==> lex_lt(
                    suffix(t@, list@[k] as int),
                    suffix(t@, list@[l] as int),
                ),
        decreases list@.len() - i,
    {
        let a = suffix_at(t, list[i - 1]);
        let b = suffix_at(t, list[i]);
        if compare_bytes(a, b) >= 0 {
            return false;
        }
        proof {
            assert forall|k: int, l: int| 0 <= k < l < i + 1 && l < list@.len() implies lex_lt(
                suffix(t@, list@[k] as int),
                suffix(t@, list@[l] as int),
            ) by {
                if l == i && k < i - 1 {
                    lemma_lex_trans(suffix(t@, list@[k] as int), a@, b@);
                }
            }
        }
        i = i + 1;
    }
    true
}

/// The code-point starts of `[begin, end)`, ordered by their suffixes cut at
/// `stop`: the block sorted within the window `[begin, stop)`.
fn window_list(text: &str, begin: usize, end: usize, stop: usize) -> (list: Vec<u32>)
    requires
        text.spec_bytes().len() <= u32::MAX,
        begin < end <= stop <= text.spec_bytes().len(),
        is_stop(text.spec_bytes(), begin as int),
        is_stop(text.spec_bytes(), stop as int),
    ensures
        forall|k: int| 0 <= k < list@.len() ==> is_boundary(text.spec_bytes(), list@[k] as int)
            && begin <= list@[k] < end,
        forall|x: int|
            begin <= x < end && is_boundary(text.spec_bytes(), x) ==> has_entry(list@, x),
        list@.no_duplicates(),
        forall|k: int, l: int|
            0 <= k < l < list@.len() ==> lex_lt(
                text.spec_bytes().subrange(list@[k] as int, stop as int),
                text.spec_bytes().subrange(list@[l] as int, stop as int),
            ),
{
    let ghost tb = text.spec_bytes();
    let window = slice_str(text, begin, stop);
    let part = sort_window(window, end - begin);
    let ghost w = window.spec_bytes();
    let mut list: Vec<u32> = Vec::new();
    let mut i: usize = 0;
    while i < part.len()
        invariant
            tb.len() <= u32::MAX,
            begin < end <= stop <= tb.len(),
            w == tb.subrange(begin as int, stop as int),
            sorted_starts(w, end - begin, part@),
            i <= part@.len(),
            list@.len() == i,
            forall|k: int| 0 <= k < i ==> list@[k] == begin + part@[k],
        decreases part@.len() - i,
    {
        list.push(begin as u32 + part[i]);
        i = i + 1;
    }
    proof {
        assert forall|k: int| 0 <= k < list@.len() implies is_boundary(tb, list@[k] as int)
            && begin <= list@[k] < end by {
            assert(w[part@[k] as int] == tb[list@[k] as int]);
        }
        assert forall|x: int| begin <= x < end && is_boundary(tb, x) implies has_entry(
            list@,
            x,
        ) by {
            assert(w[x - begin] == tb[x]);
            assert(has_entry(part@, x - begin));
            let i = choose|i: int| 0 <= i < part@.len() && part@[i] == x - begin;
            assert(list@[i] == x);
        }
        assert forall|k: int, l: int|
            0 <= k < list@.len() && 0 <= l < list@.len() && k != l implies list@[k]
            != list@[l] by {
            if k < l {
                lemma_lex_trichotomy(suffix(w, part@[k] as int), suffix(w, part@[l] as int));
            } else {
                lemma_lex_trichotomy(suffix(w, part@[l] as int), suffix(w, part@[k] as int));
            }
        }
        assert forall|k: int, l: int| 0 <= k < l < list@.len() implies lex_lt(
            tb.subrange(list@[k] as int, stop as int),
            tb.subrange(list@[l] as int, stop as int),
        ) by {
            assert(suffix(w, part@[k] as int) =~= tb.subrange(list@[k] as int, stop as int));
            assert(suffix(w, part@[l] as int) =~= tb.subrange(list@[l] as int, stop as int));
        }
    }
    list
}

/// The code-point starts of the block `[begin, end)`, ordered by their whole
/// suffixes. The block is first sorted within the window that reaches to
/// `with_tail`. A tail can stop short on periodic text: for `aaaaab` with
/// blocks of two bytes the first window is `aaaaa`, where the suffix at 1
/// sorts before the one at 0, while in the whole text it sorts after it. So
/// the order found is checked against the whole suffixes, and while it fails
/// the window is doubled, up to the end of the text, where the two orders are
/// the same.
fn block_list(text: &str, begin: usize, end: usize, with_tail: usize) -> (list: Vec<u32>)
    requires
        text.spec_bytes().len() <= u32::MAX,
        begin < end <= with_tail <= text.spec_bytes().len(),
        is_stop(text.spec_bytes(), begin as int),
        is_stop(text.spec_bytes(), with_tail as int),
    ensures
        forall|k: int| 0 <= k < list@.len() ==> is_boundary(text.spec_bytes(), list@[k] as int)
            && begin <= list@[k] < end,
        forall|x: int|
            begin <= x < end && is_boundary(text.spec_bytes(), x) ==> has_entry(list@, x),
        list@.no_duplicates(),
        sorted_by_suffix(text.spec_bytes(), list@),
{
    let t = text.as_bytes();
    let n = t.len();
    let mut stop = with_tail;
    let mut list = window_list(text, begin, end, stop);
    while stop < n && !ordered_by_suffix(t, list.as_slice())
        invariant
            t@ == text.spec_bytes(),
            n == t@.len(),
            n <= u32::MAX,
            begin < end <= stop <= n,
            is_stop(t@, begin as int),
            is_stop(t@, stop as int),
            forall|k: int| 0 <= k < list@.len() ==> is_boundary(t@, list@[k] as int) && begin
                <= list@[k] < end,
            forall|x: int| begin <= x < end && is_boundary(t@, x) ==> has_entry(list@, x),
            list@.no_duplicates(),
            forall|k: int, l: int|
                0 <= k < l < list@.len() ==> lex_lt(
                    t@.subrange(list@[k] as int, stop as int),
                    t@.subrange(list@[l] as int, stop as int),
                ),
        decreases n - stop,
    {
        let limit = if n - stop > stop - begin {
            stop + (stop - begin)
        } else {
            n
        };
        stop = snap_to_stop(t, limit);
        list = window_list(text, begin, end, stop);
    }
    proof {
        if stop == n {
            assert forall|k: int, l: int| 0 <= k < l < list@.len() implies lex_lt(
                suffix(t@, list@[k] as int),
                suffix(t@, list@[l] as int),
            ) by {
                assert(suffix(t@, list@[k] as int) =~= t@.subrange(list@[k] as int, stop as int));
                assert(suffix(t@, list@[l] as int) =~= t@.subrange(list@[l] as int, stop as int));
            }
        }
    }
    list
}

/// Splits `text` into blocks, sorts each within its window and returns, per
/// block, the code-point starts of the block in that order.
fn sort_blocks(text: &str, block_size: u32) -> (lists: Vec<Vec<u32>>)
    requires
        text.spec_bytes().len() <= u32::MAX,
        block_size >= 1,
    ensures
        forall|k: int, i: int|
            0 <= k < lists@.len() && 0 <= i < lists@[k]@.len() ==> is_boundary(
                text.spec_bytes(),
                lists@[k]@[i] as int,
            ),
        forall|x: int| is_boundary(text.spec_bytes(), x) ==> in_lists(lists@, x),
        lists_ascending(lists@),
        forall|k: int| 0 <= k < lists@.len() ==> lists@[k]@.no_duplicates(),
        forall|k: int| 0 <= k < lists@.len() ==> sorted_by_suffix(text.spec_bytes(), lists@[k]@),
{
    let t = text.as_bytes();
    let n = t.len();
    let ghost tb = text.spec_bytes();
    let mut lists: Vec<Vec<u32>> = Vec::new();
    let mut begin: usize = 0;
    proof {
        lemma_str_starts_at_stop(text);
    }
    while begin < n
        invariant
            t@ == tb,
            tb == text.spec_bytes(),
            n == tb.len(),
            n <= u32::MAX,
            block_size >= 1,
            begin <= n,
            is_stop(tb, begin as int),
            forall|k: int, i: int|
                0 <= k < lists@.len() && 0 <= i < lists@[k]@.len() ==> is_boundary(
                    tb,
                    lists@[k]@[i] as int,
                ) && lists@[k]@[i] < begin,
            forall|x: int| is_boundary(tb, x) && x < begin ==> in_lists(lists@, x),
            lists_ascending(lists@),
            forall|k: int| 0 <= k < lists@.len() ==> lists@[k]@.no_duplicates(),
            forall|k: int| 0 <= k < lists@.len() ==> sorted_by_suffix(tb, lists@[k]@),
        decreases n - begin,
    {
        let limit = if n - begin > block_size as usize {
            begin + block_size as usize
        } else {
            n
        };
        let end0 = snap_to_stop(t, limit);
        let mut end = end0;
        let mut with_tail = end0;
        if end0 < n {
            let blk = &t[begin..end0];
            let rest = &t[end0..n];
            let tail = calc_tail_len(blk, rest);
            match tail {
                Some(l) => {
                    with_tail = end0 + l;
                    proof {
                        if (l as int) < n - end0 {
                            assert(rest@[l as int] == tb[with_tail as int]);
                        }
                        assert(is_stop(tb, with_tail as int));
                    }
                },
                None => {
                    end = n;
                    with_tail = n;
                },
            }
        }
        let list = block_list(text, begin, end, with_tail);
        let ghost old_lists = lists@;
        lists.push(list);
        proof {
            assert(lists@ == old_lists.push(list));
            assert forall|x: int| is_boundary(tb, x) && x < end implies in_lists(lists@, x) by {
                if x < begin {
                    let (k, i) = choose|k: int, i: int|
                        0 <= k < old_lists.len() && 0 <= i < old_lists[k]@.len()
                            && old_lists[k]@[i] == x;
                    assert(lists@[k] == old_lists[k]);
                } else {
                    let i = choose|i: int| 0 <= i < list@.len() && list@[i] == x;
                    assert(lists@[old_lists.len() as int]@[i] == x);
                }
            }
            assert forall|k: int, i: int|
                0 <= k < lists@.len() && 0 <= i < lists@[k]@.len() implies is_boundary(
                    tb,
                    lists@[k]@[i] as int,
                ) && lists@[k]@[i] < end by {
                if k < old_lists.len() {
                    assert(lists@[k] == old_lists[k]);
                }
            }
            assert forall|k1: int, k2: int, i: int, j: int|
                0 <= k1 < k2 < lists@.len() && 0 <= i < lists@[k1]@.len() && 0 <= j
                    < lists@[k2]@.len() implies lists@[k1]@[i] < lists@[k2]@[j] by {
                assert(lists@[k1] == old_lists[k1]);
                if k2 < old_lists.len() {
                    assert(lists@[k2] == old_lists[k2]);
                }
            }
            assert forall|k: int| 0 <= k < lists@.len() implies lists@[k]@.no_duplicates() by {
                if k < old_lists.len() {
                    assert(lists@[k] == old_lists[k]);
                }
            }
            assert forall|k: int| 0 <= k < lists@.len() implies sorted_by_suffix(
                tb,
                lists@[k]@,
            ) by {
                if k < old_lists.len() {
                    assert(lists@[k] == old_lists[k]);
                }
            }
        }
        begin = end;
    }
    lists
}

/// The number of entries of the first `n` lists at or after their cursor.
pub open spec fn left_in(lists: Seq<Vec<u32>>, pos: Seq<usize>, n: int) -> int
    decreases n,
{
    if n <= 0 {
        0
    } else {
        left_in(lists, pos, n - 1) + (lists[n - 1]@.len() - pos[n - 1])
    }
}

proof fn lemma_left_in_step(lists: Seq<Vec<u32>>, pos: Seq<usize>, k: int, n: int)
    requires
        0 <= k < pos.len(),
        n <= pos.len(),
        pos[k] < usize::MAX,
    ensures
        k < n ==> left_in(lists, pos.update(k, (pos[k] + 1) as usize), n) == left_in(lists, pos, n)
            - 1,
        k >= n ==> left_in(lists, pos.update(k, (pos[k] + 1) as usize), n) == left_in(
            lists,
            pos,
            n,
        ),
    decreases n,
{
    if n > 0 {
        lemma_left_in_step(lists, pos, k, n - 1);
    }
}

proof fn lemma_left_in_nonneg(lists: Seq<Vec<u32>>, pos: Seq<usize>, n: int)
    requires
        n <= pos.len(),
        n <= lists.len(),
        forall|k: int| 0 <= k < n ==> pos[k] <= lists[k]@.len(),
    ensures
        left_in(lists, pos, n) >= 0,
        left_in(lists, pos, n) == 0 ==> forall|k: int| 0 <= k < n ==> pos[k] == lists[k]@.len(),
    decreases n,
{
    if n > 0 {
        lemma_left_in_nonneg(lists, pos, n - 1);
    }
}

/// `a <= b < c`, or `a < b <= c`, gives `a < c`.
proof fn lemma_lex_le_lt(a: Seq<u8>, b: Seq<u8>, c: Seq<u8>)
    requires
        (lex_le(a, b) && lex_lt(b, c)) || (lex_lt(a, b) && lex_le(b, c)),
    ensures
        lex_lt(a, c),
{
    if lex_lt(a, b) && lex_lt(b, c) {
        lemma_lex_trans(a, b, c);
    }
}

/// The suffix of `t` at `p`, as a slice.
fn suffix_at(t: &[u8], p: u32) -> (r: &[u8])
    requires
        p <= t@.len(),
    ensures
        r@ == suffix(t@, p as int),
{
    let r = &t[p as usize..t.len()];
    proof {
        assert(r@ =~= suffix(t@, p as int));
    }
    r
}

/// The list whose entry under the cursor has the smallest suffix; none when
/// every list is used up.
fn pick_min(t: &[u8], lists: &Vec<Vec<u32>>, pos: &Vec<usize>) -> (r: Option<usize>)
    requires
        pos@.len() == lists@.len(),
        forall|k: int| 0 <= k < lists@.len() ==> pos@[k] <= lists@[k]@.len(),
        forall|k: int, i: int|
            0 <= k < lists@.len() && 0 <= i < lists@[k]@.len() ==> lists@[k]@[i] <= t@.len(),
    ensures
        r is None <==> forall|k: int| 0 <= k < lists@.len() ==> pos@[k] == lists@[k]@.len(),
        r matches Some(b) ==> b < lists@.len() && pos@[b as int] < lists@[b as int]@.len()
            && forall|k: int|
            0 <= k < lists@.len() && pos@[k] < lists@[k]@.len() ==> lex_le(
                suffix(t@, lists@[b as int]@[pos@[b as int] as int] as int),
                suffix(t@, lists@[k]@[pos@[k] as int] as int),
            ),
{
    let mut best: Option<usize> = None;
    let mut k: usize = 0;
    while k < lists.len()
        invariant
            pos@.len() == lists@.len(),
            k <= lists@.len(),
            forall|j: int| 0 <= j < lists@.len() ==> pos@[j] <= lists@[j]@.len(),
            forall|j: int, i: int|
                0 <= j < lists@.len() && 0 <= i < lists@[j]@.len() ==> lists@[j]@[i] <= t@.len(),
            best is None ==> forall|j: int| 0 <= j < k ==> pos@[j] == lists@[j]@.len(),
            best matches Some(b) ==> b < k && pos@[b as int] < lists@[b as int]@.len()
                && forall|j: int|
                0 <= j < k && pos@[j] < lists@[j]@.len() ==> lex_le(
                    suffix(t@, lists@[b as int]@[pos@[b as int] as int] as int),
                    suffix(t@, lists@[j]@[pos@[j] as int] as int),
                ),
        decreases lists@.len() - k,
    {
        if pos[k] < lists[k].len() {
            let fk = suffix_at(t, lists[k][pos[k]]);
            match best {
                None => {
                    best = Some(k);
                },
                Some(b) => {
                    let fb = suffix_at(t, lists[b][pos[b]]);
                    let c = compare_bytes(fk, fb);
                    if c < 0 {
                        proof {
                            assert forall|j: int|
                                0 <= j < k + 1 && pos@[j] < lists@[j]@.len() implies lex_le(
                                fk@,
                                suffix(t@, lists@[j]@[pos@[j] as int] as int),
                            ) by {
                                if j < k {
                                    lemma_lex_le_lt(
                                        fk@,
                                        fb@,
                                        suffix(t@, lists@[j]@[pos@[j] as int] as int),
                                    );
                                }
                            }
                        }
                        best = Some(k);
                    } else {
                        proof {
                            lemma_lex_trichotomy(fk@, fb@);
                        }
                    }
                },
            }
        }
        k = k + 1;
    }
    best
}

/// Merges lists of code-point starts, each ordered by suffix, into one list
/// ordered by suffix, taking at each step the smallest suffix under a cursor.
fn merge_blocks(t: &[u8], lists: &Vec<Vec<u32>>) -> (out: Vec<u32>)
    requires
        forall|k: int, i: int|
            0 <= k < lists@.len() && 0 <= i < lists@[k]@.len() ==> lists@[k]@[i] < t@.len(),
        lists_ascending(lists@),
        forall|k: int| 0 <= k < lists@.len() ==> lists@[k]@.no_duplicates(),
    ensures
        forall|o: int| 0 <= o < out@.len() ==> in_lists(lists@, out@[o] as int),
        forall|x: int| in_lists(lists@, x) ==> has_entry(out@, x),
        out@.no_duplicates(),
        (forall|k: int| 0 <= k < lists@.len() ==> sorted_by_suffix(t@, lists@[k]@))
            ==> sorted_by_suffix(t@, out@),
{
    let ghost ls = lists@;
    let ghost good = lists_ascending(ls) && (forall|k: int|
        0 <= k < ls.len() ==> sorted_by_suffix(t@, ls[k]@));
    let mut pos: Vec<usize> = Vec::new();
    let mut k: usize = 0;
    while k < lists.len()
        invariant
            k <= lists@.len(),
            pos@.len() == k,
            forall|j: int| 0 <= j < k ==> pos@[j] == 0,
        decreases lists@.len() - k,
    {
        pos.push(0);
        k = k + 1;
    }
    let mut out: Vec<u32> = Vec::new();
    let mut next = pick_min(t, lists, &pos);
    while next.is_some()
        invariant
            ls == lists@,
            pos@.len() == ls.len(),
            forall|j: int| 0 <= j < ls.len() ==> pos@[j] <= ls[j]@.len(),
            forall|j: int, i: int|
                0 <= j < ls.len() && 0 <= i < ls[j]@.len() ==> ls[j]@[i] < t@.len(),
            next is None <==> forall|j: int| 0 <= j < ls.len() ==> pos@[j] == ls[j]@.len(),
            next matches Some(b) ==> b < ls.len() && pos@[b as int] < ls[b as int]@.len()
                && forall|j: int|
                0 <= j < ls.len() && pos@[j] < ls[j]@.len() ==> lex_le(
                    suffix(t@, ls[b as int]@[pos@[b as int] as int] as int),
                    suffix(t@, ls[j]@[pos@[j] as int] as int),
                ),
            forall|o: int| 0 <= o < out@.len() ==> in_lists(ls, out@[o] as int),
            forall|o: int|
                #![trigger out@[o]]
                0 <= o < out@.len() ==> exists|j: int, i: int|
                    0 <= j < ls.len() && 0 <= i < pos@[j] && ls[j]@[i] == out@[o],
            out@.no_duplicates(),
            lists_ascending(ls),
            forall|j: int| 0 <= j < ls.len() ==> ls[j]@.no_duplicates(),
            forall|j: int, i: int|
                0 <= j < ls.len() && 0 <= i < pos@[j] ==> has_entry(out@, ls[j]@[i] as int),
            good == (lists_ascending(ls) && (forall|j: int|
                0 <= j < ls.len() ==> sorted_by_suffix(t@, ls[j]@))),
            good ==> sorted_by_suffix(t@, out@),
            good ==> forall|o: int, j: int, i: int|
                0 <= o < out@.len() && 0 <= j < ls.len() && pos@[j] <= i < ls[j]@.len()
                    ==> lex_lt(suffix(t@, out@[o] as int), suffix(t@, ls[j]@[i] as int)),
        decreases left_in(ls, pos@, ls.len() as int),
    {
        let b = match next {
            Some(b) => b,
            None => 0,
        };
        let m = lists[b][pos[b]];
        let len_b = lists[b].len();
        assert(pos@[b as int] < len_b);
        let ghost out0 = out@;
        let ghost pos0 = pos@;
        out.push(m);
        pos[b] = pos[b] + 1;
        proof {
            assert(out@ == out0.push(m));
            assert(pos@ == pos0.update(b as int, (pos0[b as int] + 1) as usize));
            lemma_left_in_step(ls, pos0, b as int, ls.len() as int);
            lemma_left_in_nonneg(ls, pos@, ls.len() as int);
            assert(in_lists(ls, m as int));
            assert forall|o: int| 0 <= o < out@.len() implies in_lists(ls, out@[o] as int) by {
                if o < out0.len() {
                    assert(out@[o] == out0[o]);
                }
            }
            assert forall|o: int| 0 <= o < out0.len() implies out0[o] != m by {
                let (j, i) = choose|j: int, i: int|
                    0 <= j < ls.len() && 0 <= i < pos0[j] && ls[j]@[i] == out0[o];
                if j == b {
                    assert(ls[j]@[i] != ls[j]@[pos0[j] as int]);
                } else if j < b {
                    assert(ls[j]@[i] < ls[b as int]@[pos0[b as int] as int]);
                } else {
                    assert(ls[b as int]@[pos0[b as int] as int] < ls[j]@[i]);
                }
            }
            assert forall|o: int| #![trigger out@[o]] 0 <= o < out@.len() implies exists|j: int, i: int|
                0 <= j < ls.len() && 0 <= i < pos@[j] && ls[j]@[i] == out@[o] by {
                if o < out0.len() {
                    assert(out@[o] == out0[o]);
                    let (j, i) = choose|j: int, i: int|
                        0 <= j < ls.len() && 0 <= i < pos0[j] && ls[j]@[i] == out0[o];
                    assert(pos@[j] >= pos0[j]);
                } else {
                    assert(ls[b as int]@[pos0[b as int] as int] == out@[o]);
                }
            }
            assert forall|o: int, p: int|
                0 <= o < out@.len() && 0 <= p < out@.len() && o != p implies out@[o] != out@[p] by {
                if o < out0.len() && p < out0.len() {
                    assert(out@[o] == out0[o] && out@[p] == out0[p]);
                } else if o < out0.len() {
                    assert(out@[o] == out0[o]);
                } else if p < out0.len() {
                    assert(out@[p] == out0[p]);
                }
            }
            assert forall|j: int, i: int|
                0 <= j < ls.len() && 0 <= i < pos@[j] implies has_entry(
                out@,
                ls[j]@[i] as int,
            ) by {
                if j == b && i == pos0[j] {
                    assert(out@[out0.len() as int] == m);
                } else {
                    let o = choose|o: int| 0 <= o < out0.len() && out0[o] == ls[j]@[i];
                    assert(out@[o] == out0[o]);
                }
            }
            if good {
                assert forall|o: int, p: int| 0 <= o < p < out@.len() implies lex_lt(
                    suffix(t@, out@[o] as int),
                    suffix(t@, out@[p] as int),
                ) by {
                    assert(out@[o] == out0[o]);
                    if p < out0.len() {
                        assert(out@[p] == out0[p]);
                    }
                }
                assert forall|o: int, j: int, i: int|
                    0 <= o < out@.len() && 0 <= j < ls.len() && pos@[j] <= i < ls[j]@.len()
                        implies lex_lt(suffix(t@, out@[o] as int), suffix(t@, ls[j]@[i] as int)) by {
                    if o < out0.len() {
                        assert(out@[o] == out0[o]);
                    } else {
                        let fm = suffix(t@, m as int);
                        let fj = suffix(t@, ls[j]@[pos0[j] as int] as int);
                        let x = suffix(t@, ls[j]@[i] as int);
                        if j == b {
                            assert(sorted_by_suffix(t@, ls[j]@));
                        } else {
                            assert(lex_le(fm, fj));
                            if i > pos0[j] {
                                assert(sorted_by_suffix(t@, ls[j]@));
                                lemma_lex_le_lt(fm, fj, x);
                            } else {
                                if b < j {
                                    assert(m < ls[j]@[i]);
                                } else {
                                    assert(ls[j]@[i] < m);
                                }
                                lemma_suffixes_distinct(t@, m as int, ls[j]@[i] as int);
                                lemma_lex_trichotomy(fm, x);
                            }
                        }
                    }
                }
            }
        }
        next = pick_min(t, lists, &pos);
    }
    proof {
        assert forall|x: int| in_lists(ls, x) implies has_entry(out@, x) by {
            let (j, i) = choose|j: int, i: int|
                0 <= j < ls.len() && 0 <= i < ls[j]@.len() && ls[j]@[i] == x;
        }
    }
    out
}

/// Builds the suffix array of `text` in memory.
pub fn build_in_memory(text: &str) -> (r: Vec<u32>)
    requires
        text.spec_bytes().len() <= u32::MAX,
    ensures
        is_suffix_array(text.spec_bytes(), r@),
{
    let r = sort_window(text, text.len());
    r
}

/// Builds the suffix array of `text`: in one piece when the text fits in a
/// block of `block_size` bytes, else block by block followed by a merge. Either
/// way the result is the suffix array of the text.
pub fn build_suffix_array(text: &str, block_size: u32) -> (r: Vec<u32>)
    requires
        text.spec_bytes().len() <= u32::MAX,
        block_size >= 1,
    ensures
        forall|i: int| 0 <= i < r@.len() ==> is_boundary(text.spec_bytes(), r@[i] as int),
        forall|x: int| is_boundary(text.spec_bytes(), x) ==> has_entry(r@, x),
        r@.no_duplicates(),
        is_suffix_array(text.spec_bytes(), r@),
{
    let t = text.as_bytes();
    if t.len() == 0 {
        return Vec::new();
    }
    if t.len() == 1 {
        let mut r: Vec<u32> = Vec::new();
        r.push(0);
        proof {
            lemma_str_starts_at_stop(text);
            assert(r@[0] == 0);
            assert(has_entry(r@, 0));
            assert forall|x: int| is_boundary(text.spec_bytes(), x) implies has_entry(r@, x) by {
                assert(x == 0);
            }
            assert(sorted_by_suffix(text.spec_bytes(), r@));
        }
        return r;
    }
    if t.len() <= block_size as usize {
        let r = build_in_memory(text);
        proof {
            assert forall|i: int, j: int|
                0 <= i < r@.len() && 0 <= j < r@.len() && i != j implies r@[i] != r@[j] by {
                let tb = text.spec_bytes();
                if i < j {
                    lemma_lex_trichotomy(suffix(tb, r@[i] as int), suffix(tb, r@[j] as int));
                } else {
                    lemma_lex_trichotomy(suffix(tb, r@[j] as int), suffix(tb, r@[i] as int));
                }
            }
        }
        r
    } else {
        let lists = sort_blocks(text, block_size);
        let r = merge_blocks(t, &lists);
        proof {
            assert forall|x: int| is_boundary(text.spec_bytes(), x) implies has_entry(r@, x) by {
                assert(in_lists(lists@, x));
            }
            assert forall|i: int| 0 <= i < r@.len() implies is_boundary(
                text.spec_bytes(),
                r@[i] as int,
            ) by {
                assert(in_lists(lists@, r@[i] as int));
            }
        }
        r
    }
}

/// Two suffix arrays of one text agree on their first `i` entries.
proof fn lemma_suffix_arrays_agree_upto(t: Seq<u8>, a: Seq<u32>, b: Seq<u32>, i: int)
    requires
        is_suffix_array(t, a),
        is_suffix_array(t, b),
        0 <= i <= a.len(),
        i <= b.len(),
    ensures
        forall|k: int| 0 <= k < i ==> a[k] == b[k],
    decreases i,
{
    if i > 0 {
        lemma_suffix_arrays_agree_upto(t, a, b, i - 1);
        let m = i - 1;
        if a[m] != b[m] {
            assert(has_entry(b, a[m] as int));
            let j = choose|j: int| 0 <= j < b.len() && b[j] == a[m];
            assert(has_entry(a, b[m] as int));
            let j2 = choose|j2: int| 0 <= j2 < a.len() && a[j2] == b[m];
            if j < m {
                assert(a[j] == b[j]);
                lemma_lex_trichotomy(suffix(t, a[j] as int), suffix(t, a[m] as int));
            }
            if j2 < m {
                assert(a[j2] == b[j2]);
                lemma_lex_trichotomy(suffix(t, b[j2] as int), suffix(t, b[m] as int));
            }
            let x = suffix(t, a[m] as int);
            let y = suffix(t, b[m] as int);
            assert(lex_lt(x, y));
            assert(lex_lt(y, x));
            lemma_lex_trichotomy(x, y);
        }
    }
}

/// A text has one suffix array: two sequences that are both its suffix array
/// are equal.
pub proof fn lemma_suffix_array_unique(t: Seq<u8>, a: Seq<u32>, b: Seq<u32>)
    requires
        is_suffix_array(t, a),
        is_suffix_array(t, b),
    ensures
        a == b,
{
    let n = if a.len() < b.len() {
        a.len() as int
    } else {
        b.len() as int
    };
    lemma_suffix_arrays_agree_upto(t, a, b, n);
    if a.len() < b.len() {
        assert(has_entry(a, b[n] as int));
        let j = choose|j: int| 0 <= j < a.len() && a[j] == b[n];
        assert(a[j] == b[j]);
        lemma_lex_trichotomy(suffix(t, b[j] as int), suffix(t, b[n] as int));
    } else if b.len() < a.len() {
        assert(has_entry(b, a[n] as int));
        let j = choose|j: int| 0 <= j < b.len() && b[j] == a[n];
        assert(a[j] == b[j]);
        lemma_lex_trichotomy(suffix(t, a[j] as int), suffix(t, a[n] as int));
    }
    assert(a =~= b);
}

/// Block independence: for every block size from 1 on, building block by
/// block gives the suffix array that building in one block gives. `by_blocks`
/// and `whole` stand for the two results, as `build_suffix_array` describes
/// them.
pub proof fn lemma_block_independence(
    t: Seq<u8>,
    block_size: int,
    by_blocks: Seq<u32>,
    whole: Seq<u32>,
)
    requires
        t.len() <= u32::MAX,
        block_size >= 1,
        is_suffix_array(t, by_blocks),
        is_suffix_array(t, whole),
    ensures
        by_blocks == whole,
{
    lemma_suffix_array_unique(t, by_blocks, whole);
}

} // verus!
