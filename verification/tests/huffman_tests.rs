use lib::huffman::{compute_accelerated_huffman, compute_codewords, compute_sorted_huffman, include_in_sort, sorted_search, NO_CODE};
use lib::types::Codebook;

fn dense_book(lengths: &[u8]) -> Codebook {
    let mut c = Codebook::new();
    c.entries = lengths.len() as i32;
    c.codewords = vec![0; lengths.len()];
    c
}

#[test]
fn compute_codewords_assigns_lowest_free_codes() {
    let lengths = [2u8, 2, 2, 2];
    let mut c = dense_book(&lengths);
    let mut values: Vec<u32> = Vec::new();
    assert!(compute_codewords(&mut c, &lengths, &mut values));
    // codes 00, 01, 10, 11 written first bit lowest
    assert_eq!(c.codewords, vec![0, 2, 1, 3]);
}

#[test]
fn compute_codewords_mixed_lengths() {
    let lengths = [1u8, 2, 3, 3];
    let mut c = dense_book(&lengths);
    let mut values: Vec<u32> = Vec::new();
    assert!(compute_codewords(&mut c, &lengths, &mut values));
    // codes 0, 10, 110, 111
    assert_eq!(c.codewords, vec![0b0, 0b01, 0b011, 0b111]);
}

#[test]
fn compute_codewords_skips_unused_entries() {
    let lengths = [NO_CODE, 1, NO_CODE, 1];
    let mut c = dense_book(&lengths);
    let mut values: Vec<u32> = Vec::new();
    assert!(compute_codewords(&mut c, &lengths, &mut values));
    assert_eq!(c.codewords[1], 0);
    assert_eq!(c.codewords[3], 1);
}

#[test]
fn compute_codewords_refuses_oversubscribed_lengths() {
    let lengths = [1u8, 1, 1];
    let mut c = dense_book(&lengths);
    let mut values: Vec<u32> = Vec::new();
    assert!(!compute_codewords(&mut c, &lengths, &mut values));
}

#[test]
fn compute_codewords_sparse_records_symbols() {
    let lengths = [NO_CODE, 1, NO_CODE, 2, 2];
    let mut c = Codebook::new();
    c.entries = 5;
    c.sparse = true;
    c.codewords = vec![0; 3];
    c.codeword_lengths = vec![0; 3];
    let mut values: Vec<u32> = vec![0; 3];
    assert!(compute_codewords(&mut c, &lengths, &mut values));
    assert_eq!(values, vec![1, 3, 4]);
    assert_eq!(c.codeword_lengths, vec![1, 2, 2]);
    assert_eq!(c.codewords, vec![0, 1, 3]);
}

#[test]
fn include_in_sort_examples() {
    let mut c = Codebook::new();
    assert!(!include_in_sort(&c, 10));
    assert!(include_in_sort(&c, 11));
    assert!(!include_in_sort(&c, NO_CODE));
    c.sparse = true;
    assert!(include_in_sort(&c, 3));
}

#[test]
fn sorted_search_examples() {
    let sc: Vec<u32> = vec![10, 20, 30, 40, 0xffff_ffff];
    assert_eq!(sorted_search(&sc, 4, 25), 1);
    assert_eq!(sorted_search(&sc, 4, 30), 2);
    assert_eq!(sorted_search(&sc, 4, 45), 3);
    assert_eq!(sorted_search(&sc, 4, 5), 0);
    assert_eq!(sorted_search(&sc, 0, 5), 0);
}

#[test]
fn sorted_table_holds_long_codes_in_order() {
    // two entries of 11 bits among short ones
    let lengths = [1u8, 2, 11, 11, 3];
    let mut c = dense_book(&lengths);
    let mut values: Vec<u32> = Vec::new();
    assert!(compute_codewords(&mut c, &lengths, &mut values));
    c.codeword_lengths = lengths.to_vec();
    c.sorted_entries = 2;
    c.sorted_codewords = vec![0; 3];
    c.sorted_values = vec![0; 2];
    compute_sorted_huffman(&mut c, &lengths, &values);
    assert_eq!(c.sorted_codewords[2], 0xffff_ffff);
    assert!(c.sorted_codewords[0] <= c.sorted_codewords[1]);
    let mut symbols = c.sorted_values.clone();
    symbols.sort();
    assert_eq!(symbols, vec![2, 3]);
    for k in 0..2 {
        let s = c.sorted_values[k] as usize;
        assert_eq!(c.sorted_codewords[k], c.codewords[s].reverse_bits());
    }
}

#[test]
fn fast_table_points_at_matching_short_codes() {
    let lengths = [1u8, 2, 3, 3];
    let mut c = dense_book(&lengths);
    let mut values: Vec<u32> = Vec::new();
    assert!(compute_codewords(&mut c, &lengths, &mut values));
    c.codeword_lengths = lengths.to_vec();
    compute_accelerated_huffman(&mut c);
    assert_eq!(c.fast_huffman.len(), 1024);
    for t in 0..1024usize {
        let e = c.fast_huffman[t];
        assert!(e >= 0);
        let e = e as usize;
        let l = c.codeword_lengths[e] as u32;
        assert_eq!(t as u32 & ((1 << l) - 1), c.codewords[e]);
    }
    assert_eq!(c.fast_huffman[0], 0);
    assert_eq!(c.fast_huffman[1], 1);
    assert_eq!(c.fast_huffman[3], 2);
    assert_eq!(c.fast_huffman[7], 3);
}
