use suffine::{Endian, IndexBuilder, MultiDocIndex, MultiDocIndexBuilder};

fn build_multi(text: &str, delim: char) -> MultiDocIndex<'_> {
    let index = IndexBuilder::new(text).build().unwrap();
    let mut builder = MultiDocIndexBuilder::new(index);
    builder.delimiter(delim);
    builder.build().unwrap()
}

fn sorted_hits(multi: &MultiDocIndex, query: &str) -> Vec<(u32, u32)> {
    let mut hits = multi.doc_positions(query).into_vec();
    hits.sort();
    hits
}

#[test]
fn three_documents() {
    let multi = build_multi("alpha\nbeta\ngamma", '\n');
    assert_eq!(multi.num_docs(), 3);
    assert_eq!(multi.doc(0), Some("alpha"));
    assert_eq!(multi.doc(1), Some("beta"));
    assert_eq!(multi.doc(2), Some("gamma"));
    assert_eq!(multi.doc(3), None);
    assert_eq!(
        sorted_hits(&multi, "a"),
        vec![(0, 0), (0, 4), (1, 3), (2, 1), (2, 4)]
    );
}

#[test]
fn query_holding_delimiter_is_empty() {
    let multi = build_multi("alpha\nbeta\ngamma", '\n');
    assert!(multi.doc_positions("a\n").into_vec().is_empty());
    assert!(multi.doc_positions("\nb").into_vec().is_empty());
    assert_eq!(multi.freq("a\n"), 0);
    assert_eq!(multi.freq("\n"), 0);
}

#[test]
fn empty_query_has_no_hits() {
    let multi = build_multi("alpha\nbeta", '\n');
    assert_eq!(multi.freq(""), 0);
    assert!(multi.doc_positions("").into_vec().is_empty());
}

#[test]
fn freq_counts_all_hits() {
    let multi = build_multi("alpha\nbeta\ngamma", '\n');
    assert_eq!(multi.freq("a"), 5);
    assert_eq!(multi.freq("ma"), 1);
    assert_eq!(multi.index().freq("a"), 5);
}

#[test]
fn next_hands_out_hits_one_by_one() {
    let multi = build_multi("ab|ab|b", '|');
    let mut it = multi.doc_positions("b");
    let mut hits = Vec::new();
    while let Some(h) = it.next() {
        hits.push(h);
    }
    hits.sort();
    assert_eq!(hits, vec![(0, 1), (1, 1), (2, 0)]);
    assert_eq!(it.next(), None);
}

#[test]
fn documents_out_of_suffix_order() {
    let multi = build_multi("x\nb\na", '\n');
    assert_eq!(multi.num_docs(), 3);
    assert_eq!(multi.doc(0), Some("x"));
    assert_eq!(multi.doc(1), Some("b"));
    assert_eq!(multi.doc(2), Some("a"));
}

#[test]
fn multi_byte_delimiter() {
    let multi = build_multi("héllo😅wörld😅", '😅');
    assert_eq!(multi.num_docs(), 3);
    assert_eq!(multi.doc(0), Some("héllo"));
    assert_eq!(multi.doc(1), Some("wörld"));
    assert_eq!(multi.doc(2), Some(""));
    assert_eq!(sorted_hits(&multi, "l"), vec![(0, 3), (0, 4), (1, 4)]);
    assert_eq!(sorted_hits(&multi, "ö"), vec![(1, 1)]);
}

#[test]
fn empty_documents() {
    let multi = build_multi(",,a,", ',');
    assert_eq!(multi.num_docs(), 4);
    assert_eq!(multi.doc(0), Some(""));
    assert_eq!(multi.doc(1), Some(""));
    assert_eq!(multi.doc(2), Some("a"));
    assert_eq!(multi.doc(3), Some(""));
    assert_eq!(sorted_hits(&multi, "a"), vec![(2, 0)]);
}

#[test]
fn text_without_delimiter_is_one_document() {
    let multi = build_multi("one document", '\n');
    assert_eq!(multi.num_docs(), 1);
    assert_eq!(multi.doc(0), Some("one document"));
    assert_eq!(sorted_hits(&multi, "o"), vec![(0, 0), (0, 5)]);
}

#[test]
fn default_delimiter_is_newline() {
    let index = IndexBuilder::new("a\nb").build().unwrap();
    let multi = MultiDocIndexBuilder::new(index).build().unwrap();
    assert_eq!(multi.num_docs(), 2);
    assert_eq!(multi.doc(1), Some("b"));
}

#[test]
fn multi_round_trip_both_orders() {
    let text = "alpha\nbeta\ngamma";
    let multi = build_multi(text, '\n');
    let index = IndexBuilder::new(text).build().unwrap();
    let mut builder = MultiDocIndexBuilder::new(index);
    builder.delimiter('\n');
    for order in [Endian::Little, Endian::Big] {
        let bytes = builder.to_bytes(order).unwrap();
        assert_eq!(bytes.len(), 4 * text.len() + 4 * 3 + 1 + 12);
        let loaded = MultiDocIndex::from_bytes_in(text, &bytes, order).unwrap();
        assert_eq!(loaded.index().suffix_array(), multi.index().suffix_array());
        assert_eq!(loaded.num_docs(), 3);
        assert_eq!(loaded.doc(1), Some("beta"));
        assert_eq!(sorted_hits(&loaded, "a"), sorted_hits(&multi, "a"));
    }
}

#[test]
fn multi_bytes_layout() {
    let index = IndexBuilder::new("a,b").build().unwrap();
    let mut builder = MultiDocIndexBuilder::new(index);
    builder.delimiter(',');
    let bytes = builder.to_bytes(Endian::Little).unwrap();
    // suffix array of "a,b" is [1, 0, 2]; document starts are [0, 2]
    let expected: Vec<u8> = vec![
        1, 0, 0, 0, 0, 0, 0, 0, 2, 0, 0, 0, //
        0, 0, 0, 0, 2, 0, 0, 0, //
        b',', //
        3, 0, 0, 0, 2, 0, 0, 0, 1, 0, 0, 0,
    ];
    assert_eq!(bytes, expected);
}

#[test]
fn multi_round_trip_host_order() {
    let text = "a😅b😅c";
    let index = IndexBuilder::new(text).build().unwrap();
    let mut builder = MultiDocIndexBuilder::new(index);
    builder.delimiter('😅');
    let order = if u32::from_ne_bytes([1, 0, 0, 0]) == 1 { Endian::Little } else { Endian::Big };
    let bytes = builder.to_bytes(order).unwrap();
    let loaded = MultiDocIndex::from_bytes(text, &bytes).unwrap();
    assert_eq!(loaded.num_docs(), 3);
    assert_eq!(loaded.doc(2), Some("c"));
}

#[test]
fn multi_from_bad_bytes() {
    let text = "a,b";
    let index = IndexBuilder::new(text).build().unwrap();
    let mut builder = MultiDocIndexBuilder::new(index);
    builder.delimiter(',');
    let good = builder.to_bytes(Endian::Little).unwrap();
    assert!(MultiDocIndex::from_bytes_in(text, &good, Endian::Little).is_ok());
    // too short for a footer
    assert_eq!(
        MultiDocIndex::from_bytes_in(text, &good[..8], Endian::Little).unwrap_err(),
        suffine::Error::InvalidIndex
    );
    // one byte more than the footer accounts for
    let mut longer = vec![0u8];
    longer.extend_from_slice(&good);
    assert_eq!(
        MultiDocIndex::from_bytes_in(text, &longer, Endian::Little).unwrap_err(),
        suffine::Error::InvalidIndex
    );
    // delimiter bytes that are not UTF-8
    let mut bad_delim = good.clone();
    bad_delim[20] = 0xff;
    assert_eq!(
        MultiDocIndex::from_bytes_in(text, &bad_delim, Endian::Little).unwrap_err(),
        suffine::Error::InvalidIndex
    );
    // document starts out of order
    let mut bad_offsets = good.clone();
    bad_offsets[16] = 0;
    assert_eq!(
        MultiDocIndex::from_bytes_in(text, &bad_offsets, Endian::Little).unwrap_err(),
        suffine::Error::InvalidIndex
    );
}

#[test]
fn multi_delimiter_of_two_chars_is_refused() {
    let text = "a,b";
    let index = IndexBuilder::new(text).build().unwrap();
    let mut bytes = index.to_bytes(Endian::Little);
    for x in [0u32, 2] {
        bytes.extend_from_slice(&x.to_le_bytes());
    }
    bytes.extend_from_slice(b",,");
    for x in [3u32, 2, 2] {
        bytes.extend_from_slice(&x.to_le_bytes());
    }
    assert_eq!(
        MultiDocIndex::from_bytes_in(text, &bytes, Endian::Little).unwrap_err(),
        suffine::Error::InvalidIndex
    );
}

#[test]
fn doc_positions_count_matches_freq() {
    let text = "alpha\nbeta\ngamma\naaa\n\nab";
    let multi = build_multi(text, '\n');
    let starts = [0u32, 6, 11, 17, 21, 22];
    for query in ["a", "aa", "al", "b", "m", "ab", "gamma"] {
        let hits = multi.doc_positions(query).into_vec();
        assert_eq!(hits.len(), multi.freq(query), "{}", query);
        let back: Vec<u32> = hits.iter().map(|(k, o)| starts[*k as usize] + o).collect();
        assert_eq!(back, multi.index().positions(query).to_vec(), "{}", query);
    }
}
