use deflate::chained_hash_table::{filled_hash_table, ChainedHashTable, HASH_BYTES};
use deflate::lz77::{
    create_buffer, get_match_length, longest_match, longest_match_current, lz77_compress,
    lz77_compress_block, LDPair, LZ77State, MAX_MATCH, MIN_MATCH, WINDOW_SIZE,
};
use deflate::output_writer::FixedWriter;

fn decompress_lz77(input: &[LDPair]) -> Vec<u8> {
    let mut output = Vec::new();
    let mut last_length = 0;
    for p in input {
        match *p {
            LDPair::Literal(l) => output.push(l),
            LDPair::Length(l) => last_length = l,
            LDPair::Distance(d) => {
                let start = output.len() - d as usize;
                let mut n = 0;
                while n < last_length as usize {
                    let b = output[start + n];
                    output.push(b);
                    n += 1;
                }
            }
            LDPair::EndOfBlock => {}
        }
    }
    output
}

/// Checks lengths, distances and the pairing of every Length with the Distance after it.
fn check_stream(input: &[LDPair]) {
    let mut decoded = 0usize;
    let mut pending: Option<u16> = None;
    for p in input {
        match *p {
            LDPair::Literal(_) => {
                assert!(pending.is_none());
                decoded += 1;
            }
            LDPair::Length(l) => {
                assert!(pending.is_none());
                assert!(l as usize >= MIN_MATCH && l as usize <= MAX_MATCH);
                pending = Some(l);
            }
            LDPair::Distance(d) => {
                let l = pending.take().expect("a Distance without its Length");
                assert!(d >= 1 && d as usize <= WINDOW_SIZE);
                assert!(d as usize <= decoded);
                decoded += l as usize;
            }
            LDPair::EndOfBlock => assert!(pending.is_none()),
        }
    }
    assert!(pending.is_none());
}

#[test]
fn test_match_length() {
    let test_arr = [5u8, 5, 5, 5, 5, 9, 9, 2, 3, 5, 5, 5, 5, 5];
    let l = get_match_length(&test_arr, 9, 0);
    assert_eq!(l, 5);
    let l2 = get_match_length(&test_arr, 9, 7);
    assert_eq!(l2, 0);
    let l3 = get_match_length(&test_arr, 10, 0);
    assert_eq!(l3, 4);
}

#[test]
fn test_longest_match() {
    let test_data = b"xTest data, Test_data,zTest data";
    let hash_table = filled_hash_table(&test_data[..23 + 1 + HASH_BYTES - 1]);
    let (length, distance) = longest_match_current(test_data, &hash_table);
    // The longer match is kept, not the shorter, nearer one.
    assert_eq!(distance, 22);
    assert_eq!(length, 9);
    let test_arr2 = [10u8, 10, 10, 10, 10, 10, 10, 10, 2, 3, 5, 10, 10, 10, 10, 10];
    let hash_table = filled_hash_table(&test_arr2[..HASH_BYTES + 1 + 1 + 2]);
    let (length, distance) = longest_match_current(&test_arr2, &hash_table);
    assert_eq!(distance, 1);
    assert_eq!(length, 4);
}

#[test]
fn test_lz77_short() {
    let test_bytes = String::from("Deflate late").into_bytes();
    let res = lz77_compress(&test_bytes).unwrap();
    let decompressed = decompress_lz77(&res);
    assert_eq!(test_bytes, decompressed);
}

#[test]
fn test_lazy() {
    let data = b"nba badger nbadger";
    let compressed = lz77_compress(data).unwrap();
    let test = compressed[compressed.len() - 3];
    if let LDPair::Length(n) = test {
        assert_eq!(n, 6);
    } else {
        panic!("expected a Length token, got {:?}", compressed);
    }
}

#[test]
fn test_lz77_border() {
    let data = vec![0; WINDOW_SIZE + 50];
    let compressed = lz77_compress(&data).unwrap();
    assert!(compressed.len() < data.len());
    let decompressed = decompress_lz77(&compressed);
    assert!(decompressed == data);
}

#[test]
fn test_lz77_border_multiple_blocks() {
    let data = vec![0; (WINDOW_SIZE * 2) + 50];
    let compressed = lz77_compress(&data).unwrap();
    assert!(compressed.len() < data.len());
    let decompressed = decompress_lz77(&compressed);
    assert!(decompressed == data);
}

#[test]
fn state_rejects_short_input() {
    assert!(LZ77State::new(&[]).is_none());
    assert!(LZ77State::new(&[9u8]).is_none());
    let state = LZ77State::new(&[9u8, 8]).unwrap();
    assert_eq!(state.current_start(), 0);
    assert!(!state.is_last_block());
}

#[test]
fn compress_rejects_short_input() {
    assert!(lz77_compress(&[]).is_none());
    assert!(lz77_compress(&[7u8]).is_none());
}

#[test]
fn compress_two_bytes() {
    let res = lz77_compress(&[1u8, 2]).unwrap();
    assert_eq!(res, vec![LDPair::Literal(1), LDPair::Literal(2), LDPair::EndOfBlock]);
}

#[test]
fn compress_min_match_lengths() {
    for data in [b"aaa".to_vec(), b"aaaa".to_vec()] {
        let res = lz77_compress(&data).unwrap();
        check_stream(&res);
        assert_eq!(decompress_lz77(&res), data);
        assert_eq!(*res.last().unwrap(), LDPair::EndOfBlock);
    }
}

#[test]
fn compress_repeated_run_exact_tokens() {
    // Position zero ends every chain, so the first repeat of the opening bytes finds no
    // match; the one after it does, and runs to the end.
    let data = b"abcabcabcabc";
    let res = lz77_compress(data).unwrap();
    assert_eq!(
        res,
        vec![
            LDPair::Literal(b'a'),
            LDPair::Literal(b'b'),
            LDPair::Literal(b'c'),
            LDPair::Literal(b'a'),
            LDPair::Length(8),
            LDPair::Distance(3),
            LDPair::EndOfBlock,
        ]
    );
}

#[test]
fn final_bytes_are_literals_when_no_match_reaches_them() {
    // A match found two positions before the end is dropped: the last two positions get
    // no search, so the held byte and the rest go out as literals.
    let data = b"_abcabc";
    let res = lz77_compress(data).unwrap();
    let mut expected: Vec<LDPair> = data.iter().map(|b| LDPair::Literal(*b)).collect();
    expected.push(LDPair::EndOfBlock);
    assert_eq!(res, expected);
}

#[test]
fn match_started_earlier_may_cover_final_bytes() {
    let data = b"Deflate late";
    let res = lz77_compress(data).unwrap();
    let n = res.len();
    assert_eq!(res[n - 3], LDPair::Length(4));
    assert_eq!(res[n - 2], LDPair::Distance(5));
    assert_eq!(decompress_lz77(&res), data.to_vec());
}

#[test]
fn streams_keep_bounds_and_pairing() {
    let mut data = Vec::new();
    let mut x: u32 = 12345;
    for _ in 0..(3 * WINDOW_SIZE + 777) {
        x = x.wrapping_mul(1103515245).wrapping_add(12345);
        data.push(b"abcab"[((x >> 16) % 5) as usize]);
    }
    let res = lz77_compress(&data).unwrap();
    check_stream(&res);
    assert_eq!(decompress_lz77(&res), data);
    assert!(res.len() < data.len());
}

#[test]
fn long_run_uses_longest_match() {
    let data = vec![9u8; 1000];
    let res = lz77_compress(&data).unwrap();
    check_stream(&res);
    assert!(res.contains(&LDPair::Length(MAX_MATCH as u16)));
    assert_eq!(decompress_lz77(&res), data);
}

#[test]
fn blocks_end_and_refuse_after_last() {
    let data = vec![3u8; 2 * WINDOW_SIZE + 1000];
    let mut state = LZ77State::new(&data).unwrap();
    let mut buffer = create_buffer(&data);
    assert_eq!(buffer.len(), 2 * WINDOW_SIZE + 2);
    let mut w = FixedWriter::new();
    let mut blocks = 0;
    while !state.is_last_block() {
        assert_eq!(lz77_compress_block(&data, &mut state, &mut buffer, &mut w), Some(true));
        assert_eq!(*w.buffer.last().unwrap(), LDPair::EndOfBlock);
        blocks += 1;
    }
    assert_eq!(blocks, 3);
    let before = w.buffer.len();
    assert_eq!(lz77_compress_block(&data, &mut state, &mut buffer, &mut w), None);
    assert_eq!(w.buffer.len(), before);
    assert_eq!(decompress_lz77(&w.buffer), data);
}

#[test]
fn short_tail_is_merged_into_block() {
    let data = vec![5u8; 2 * WINDOW_SIZE + 50];
    let res = lz77_compress(&data).unwrap();
    let ends = res.iter().filter(|t| **t == LDPair::EndOfBlock).count();
    assert_eq!(ends, 2);
    let data = vec![5u8; WINDOW_SIZE + 50];
    let res = lz77_compress(&data).unwrap();
    let ends = res.iter().filter(|t| **t == LDPair::EndOfBlock).count();
    assert_eq!(ends, 1);
}

#[test]
fn match_finder_returns_nothing_at_start_or_full_length() {
    let data = b"_abcabcabc";
    let table = filled_hash_table(&data[..7]);
    assert_eq!(longest_match(data, &table, 0, 2), (0, 0));
    assert_eq!(longest_match(data, &table, 4, MAX_MATCH), (0, 0));
    assert_eq!(longest_match(data, &table, 4, 6), (0, 0));
    assert_eq!(longest_match(data, &table, 4, 2), (6, 3));
}

#[test]
fn hash_table_chains_and_slides() {
    let mut table = ChainedHashTable::from_starting_values(b'a', b'b');
    table.add_hash_value(40000, b'c');
    assert_eq!(table.current_head(), 40000);
    table.add_hash_value(40003, b'c');
    table.add_hash_value(40003, b'a');
    table.add_hash_value(40003, b'b');
    table.add_hash_value(40003, b'c');
    assert_eq!(table.current_head(), 40003);
    assert_eq!(table.get_prev(40003), 40000);
    table.slide(WINDOW_SIZE);
    assert_eq!(table.current_head(), 40003 - WINDOW_SIZE);
    assert_eq!(table.get_prev(40003), 40000 - WINDOW_SIZE);
    table.slide(WINDOW_SIZE);
    assert_eq!(table.current_head(), 0);
}

#[test]
fn token_constructors() {
    assert_eq!(LDPair::_literal(4), LDPair::Literal(4));
    assert_eq!(LDPair::length(17), LDPair::Length(17));
    assert_eq!(LDPair::distance(300), LDPair::Distance(300));
    assert_eq!(LDPair::_end_of_block(), LDPair::EndOfBlock);
}

#[test]
fn block_starts_follow_the_windows() {
    let data = vec![7u8; 3 * WINDOW_SIZE + 1000];
    let mut state = LZ77State::new(&data).unwrap();
    let mut buffer = create_buffer(&data);
    let mut w = FixedWriter::new();
    let mut starts = Vec::new();
    while !state.is_last_block() {
        lz77_compress_block(&data, &mut state, &mut buffer, &mut w);
        starts.push(state.current_start);
    }
    assert_eq!(starts, vec![WINDOW_SIZE, 2 * WINDOW_SIZE, 3 * WINDOW_SIZE, 3 * WINDOW_SIZE]);
    assert_eq!(w.buffer.iter().filter(|t| **t == LDPair::EndOfBlock).count(), 4);
    assert_eq!(decompress_lz77(&w.buffer), data);
}

#[test]
fn later_short_tail_is_merged() {
    let data = vec![1u8; 2 * WINDOW_SIZE + 100];
    let mut state = LZ77State::new(&data).unwrap();
    let mut buffer = create_buffer(&data);
    let mut w = FixedWriter::new();
    lz77_compress_block(&data, &mut state, &mut buffer, &mut w);
    assert_eq!(state.current_start, WINDOW_SIZE);
    assert!(!state.is_last_block());
    lz77_compress_block(&data, &mut state, &mut buffer, &mut w);
    assert!(state.is_last_block());
    assert_eq!(state.current_start, 2 * WINDOW_SIZE);
    assert_eq!(w.buffer.iter().filter(|t| **t == LDPair::EndOfBlock).count(), 2);
    assert_eq!(decompress_lz77(&w.buffer), data);
}
