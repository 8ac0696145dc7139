use suffine::{Index, IndexBuilder};

fn positions_naive(text: &str, query: &str) -> Vec<usize> {
    if text.len() < query.len() {
        return Vec::new();
    }
    (0..=text.len() - query.len())
        .filter(|&i| {
            text.is_char_boundary(i)
                && text.is_char_boundary(i + query.len())
                && &text[i..i + query.len()] == query
        })
        .collect()
}

fn check_positions(text: &str) {
    let index = IndexBuilder::new(text).build().unwrap();

    assert_eq!(0, index.freq(""));
    assert!(index.positions("").is_empty());
    assert_eq!(0, index.freq(&format!("{}$", text)));
    assert!(index.positions(&format!("{}$", text)).is_empty());

    for end in 1..=text.len() {
        if !text.is_char_boundary(end) {
            continue;
        }
        for begin in 0..end {
            if !text.is_char_boundary(begin) {
                continue;
            }
            let query = &text[begin..end];
            let mut actual: Vec<usize> = index.positions(query).iter().map(|x| *x as usize).collect();
            actual.sort();
            let expected = positions_naive(text, query);
            assert_eq!(actual, expected);
            assert_eq!(index.freq(query), expected.len());
        }
    }
}

fn check_suffix_array(text: &str, suffix_array: &[u32]) {
    let mut actual: Vec<usize> = suffix_array.iter().map(|x| *x as usize).collect();
    actual.sort();
    let expected: Vec<usize> = (0..text.len()).filter(|&x| text.is_char_boundary(x)).collect();
    assert_eq!(actual, expected);
    for w in suffix_array.windows(2) {
        assert!(text.as_bytes()[w[0] as usize..] < text.as_bytes()[w[1] as usize..]);
    }
}

/// A text of pseudo-random letters and multi-byte characters.
fn pseudo_random_text(len: usize, seed: u64) -> String {
    let alphabet = ['a', 'b', 'c', 'd', 'e', 'é', 'あ', '😅', ' ', '\n'];
    let mut state = seed;
    let mut s = String::new();
    while s.len() < len {
        state = state.wrapping_mul(6364136223846793005).wrapping_add(1442695040888963407);
        s.push(alphabet[((state >> 33) % alphabet.len() as u64) as usize]);
    }
    s
}

#[test]
fn exotic_characters() {
    let text = "あ\0😅吉𠮷ééがが";
    check_positions(text);
}

#[test]
fn nonexistence() {
    let index = IndexBuilder::new("ab").build().unwrap();
    assert!(index.positions("c").is_empty());
    assert!(index.positions("ba").is_empty());
    assert!(index.positions("bc").is_empty());
}

#[test]
fn scream_positions() {
    let text = "I scream, you scream, we all scream for ice cream!";
    let index = IndexBuilder::new(text).build().unwrap();
    let mut actual = index.positions("cream").to_vec();
    actual.sort();
    assert_eq!(actual, vec![3, 15, 30, 44]);
    assert_eq!(index.freq("cream"), 4);
}

#[test]
fn empty_and_single_byte_texts() {
    let empty = IndexBuilder::new("").build().unwrap();
    assert!(empty.suffix_array().is_empty());
    assert!(empty.positions("a").is_empty());
    let one = IndexBuilder::new("x").build().unwrap();
    assert_eq!(one.suffix_array(), &[0]);
    assert_eq!(one.positions("x"), &[0]);
    assert!(one.positions("xx").is_empty());
}

#[test]
fn suffix_array_is_sorted_and_complete() {
    for text in ["banana", "mississippi", "あ\0😅吉𠮷ééがが", "aaaaaaaa", "abcabcabc"] {
        let index = IndexBuilder::new(text).build().unwrap();
        check_suffix_array(text, index.suffix_array());
        assert_eq!(index.text(), text);
    }
}

#[test]
fn banana_suffix_array() {
    let index = IndexBuilder::new("banana").build().unwrap();
    assert_eq!(index.suffix_array(), &[5, 3, 1, 0, 4, 2]);
}

#[test]
fn mid_code_point_offsets_left_out() {
    let text = "éあ😅";
    let index = IndexBuilder::new(text).build().unwrap();
    let mut sa = index.suffix_array().to_vec();
    sa.sort();
    assert_eq!(sa, vec![0, 2, 5]);
}

#[test]
fn zero_block_size_is_refused() {
    let mut builder = IndexBuilder::new("abc");
    builder.block_size(0);
    assert!(matches!(builder.build(), Err(suffine::Error::InvalidOption(_))));
}

#[test]
fn block_size_does_not_change_result() {
    for (len, seed) in [(300usize, 1u64), (1000, 2), (2500, 3)] {
        let text = pseudo_random_text(len, seed);
        let whole = IndexBuilder::new(&text).build().unwrap();
        for block_size in [7u32, 16, 64, 333] {
            let mut builder = IndexBuilder::new(&text);
            builder.block_size(block_size);
            let blocks = builder.build().unwrap();
            assert_eq!(blocks.suffix_array(), whole.suffix_array());
        }
        check_suffix_array(&text, whole.suffix_array());
    }
}

#[test]
fn external_path_parity() {
    let text = pseudo_random_text(200_000, 42);
    let whole = IndexBuilder::new(&text).build().unwrap();
    let mut builder = IndexBuilder::new(&text);
    builder.block_size(4096);
    let blocks = builder.build().unwrap();
    assert_eq!(blocks.suffix_array(), whole.suffix_array());
}

#[test]
fn blocks_on_periodic_text() {
    let text = "aaaaab";
    let mut builder = IndexBuilder::new(text);
    builder.block_size(2);
    let index = builder.build().unwrap();
    assert_eq!(index.suffix_array(), &[0, 1, 2, 3, 4, 5]);
    assert_eq!(index.positions("aaaaa"), &[0]);
    assert_eq!(index.positions("aaab"), &[2]);
}

#[test]
fn every_block_size_gives_the_suffix_array() {
    let texts = [
        "aaaaab".to_string(),
        "abababababab".to_string(),
        "aaaaaaaaaaaaaaaaaaaaaaab".to_string(),
        "ééééééééx".to_string(),
        "abcabcabcabcabd".to_string(),
        "banana_banana_banana".to_string(),
        pseudo_random_text(200, 9),
    ];
    for text in texts.iter() {
        let whole = IndexBuilder::new(text).build().unwrap();
        check_suffix_array(text, whole.suffix_array());
        for block_size in 1..=(text.len() as u32 + 1) {
            let mut builder = IndexBuilder::new(text);
            builder.block_size(block_size);
            let blocks = builder.build().unwrap();
            assert_eq!(blocks.suffix_array(), whole.suffix_array(), "{} {}", text, block_size);
        }
    }
}

#[test]
fn index_round_trip_both_orders() {
    let text = "I scream, you scream, we all scream for ice cream!";
    let index = IndexBuilder::new(text).build().unwrap();
    for order in [suffine::Endian::Little, suffine::Endian::Big] {
        let bytes = index.to_bytes(order);
        assert_eq!(bytes.len(), 4 * index.suffix_array().len());
        let loaded = Index::from_bytes_in(text, &bytes, order).unwrap();
        assert_eq!(loaded.suffix_array(), index.suffix_array());
    }
}

#[test]
fn index_bytes_layout() {
    let index = IndexBuilder::new("ab").build().unwrap();
    assert_eq!(index.to_bytes(suffine::Endian::Little), vec![0, 0, 0, 0, 1, 0, 0, 0]);
    assert_eq!(index.to_bytes(suffine::Endian::Big), vec![0, 0, 0, 0, 0, 0, 0, 1]);
}

#[test]
fn index_round_trip_host_order() {
    let text = "mississippi";
    let index = IndexBuilder::new(text).build().unwrap();
    let mut bytes = Vec::new();
    for x in index.suffix_array() {
        bytes.extend_from_slice(&x.to_ne_bytes());
    }
    let loaded = Index::from_bytes(text, &bytes).unwrap();
    assert_eq!(loaded.suffix_array(), index.suffix_array());
    assert_eq!(loaded.positions("ss").len(), 2);
}

#[test]
fn index_from_bad_bytes() {
    let text = "abc";
    assert_eq!(Index::from_bytes(text, &[0, 0, 0]).unwrap_err(), suffine::Error::InvalidIndex);
    assert_eq!(Index::from_bytes(text, &[0u8; 16]).unwrap_err(), suffine::Error::InvalidIndex);
    let out_of_range = 7u32.to_ne_bytes();
    assert_eq!(Index::from_bytes(text, &out_of_range).unwrap_err(), suffine::Error::InvalidIndex);
    let mid_char = 1u32.to_ne_bytes();
    assert_eq!(Index::from_bytes("é", &mid_char).unwrap_err(), suffine::Error::InvalidIndex);
    assert!(Index::from_bytes(text, &[]).unwrap().suffix_array().is_empty());
}

#[test]
fn index_from_suffix_array_checks_entries() {
    assert!(Index::from_suffix_array("ab", vec![0, 1]).is_ok());
    assert_eq!(Index::from_suffix_array("ab", vec![0, 1, 1]).unwrap_err(), suffine::Error::InvalidIndex);
    assert_eq!(Index::from_suffix_array("ab", vec![2]).unwrap_err(), suffine::Error::InvalidIndex);
}
