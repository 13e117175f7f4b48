use tans::encoding::{build_table, Channel, EncodingTable, Probability};
use tans::key::Key;
use tans::probability::ProbabilityTable;

fn table_of(input: &[u8]) -> EncodingTable {
    EncodingTable::from(&ProbabilityTable::new(input)).unwrap()
}

fn offsets(table: &EncodingTable) -> Vec<Vec<usize>> {
    table.pattern().iter().map(|p| p.offsets.clone()).collect()
}

fn channel(byte: u8, numerator: usize, denominator: usize) -> Channel {
    Channel { byte, probability: Probability { numerator, denominator } }
}

#[test]
fn hello_round_trip() {
    let table = table_of(b"Hello");
    let key = table.encode(b"Hello").unwrap();
    assert_eq!(key, Key::from_u64(248));
    assert_eq!(table.decode(&key).unwrap(), b"Hello".to_vec());
}

#[test]
fn hello_table_from_frequencies() {
    let table = build_table(&[(b'H', 1), (b'e', 1), (b'l', 2), (b'o', 1)], 5).unwrap();
    let symbols: Vec<u8> = table.channels().iter().map(|c| c.byte).collect();
    assert_eq!(symbols, b"lHeo".to_vec());
    let counts: Vec<usize> = table.channels().iter().map(|c| c.probability.numerator).collect();
    assert_eq!(counts, vec![2, 1, 1, 1]);
    assert!(table.channels().iter().all(|c| c.probability.denominator == 5));
    assert_eq!(table.pattern_size(), 5);
    assert_eq!(offsets(&table), vec![vec![0, 4], vec![1], vec![2], vec![3]]);
    let key = table.encode(b"Hello").unwrap();
    assert_eq!(key.to_u64(), Some(248));
    assert_eq!(table.decode(&key).unwrap(), b"Hello".to_vec());
}

#[test]
fn tables_of_counts_and_of_frequencies_agree() {
    let counted = table_of(b"abracadabra");
    let listed = build_table(&[(b'd', 1), (b'r', 2), (b'a', 5), (b'c', 1), (b'b', 2)], 11).unwrap();
    assert_eq!(offsets(&counted), offsets(&listed));
    assert_eq!(
        offsets(&counted),
        vec![vec![0, 5, 8, 9, 10], vec![1, 6], vec![2, 7], vec![3], vec![4]]
    );
    let symbols: Vec<u8> = listed.channels().iter().map(|c| c.byte).collect();
    assert_eq!(symbols, b"abrcd".to_vec());
    assert_eq!(counted.encode(b"cadabra").unwrap(), listed.encode(b"cadabra").unwrap());
}

#[test]
fn single_symbol_alphabet() {
    let table = build_table(&[(b'a', 3)], 3).unwrap();
    assert_eq!(table.channel_index(b'a'), Some(0));
    assert_eq!(offsets(&table), vec![vec![0, 1, 2]]);
    // Every step stays where it is, so the three symbols leave no trace.
    assert_eq!(table.encode(b"aaa").unwrap(), Key::zero());
    assert_eq!(table.decode(&Key::zero()).unwrap(), Vec::<u8>::new());
    for state in 0..10u64 {
        assert_eq!(table.generate_ref(&Key::from_u64(state), 0), Key::from_u64(state));
        assert_eq!(table.generate_parent_ref(&Key::from_u64(state)), Key::from_u64(state));
    }
}

#[test]
fn single_symbol_alphabet_decodes_the_root_only() {
    let table = table_of(b"aaa");
    assert!(table.decode(&Key::zero()).is_ok());
    assert!(table.decode(&Key::from_u64(1)).is_err());
    assert!(table.decode(&Key::from_u64(3)).is_err());
    assert!(table.decode(&Key::from_u64(u64::MAX).mul_add(7, 1)).is_err());
}

#[test]
fn empty_distribution_is_refused() {
    assert!(build_table(&[], 0).is_err());
    assert!(build_table(&[], 4).is_err());
    assert!(EncodingTable::from(&ProbabilityTable::new(b"")).is_err());
    assert!(EncodingTable::from(&ProbabilityTable::default()).is_err());
    assert!(EncodingTable::from_channels(Vec::new()).is_err());
}

#[test]
fn degenerate_distributions_are_refused() {
    // a total of zero
    assert!(build_table(&[(b'a', 0)], 0).is_err());
    // a count of zero
    assert!(build_table(&[(b'a', 3), (b'b', 0)], 3).is_err());
    // a count above the total
    assert!(build_table(&[(b'a', 4)], 3).is_err());
    // counts that do not add up to the total
    assert!(build_table(&[(b'a', 1), (b'b', 1)], 3).is_err());
    assert!(build_table(&[(b'a', 2), (b'b', 2)], 3).is_err());
    assert!(build_table(&[(b'a', usize::MAX), (b'b', usize::MAX)], usize::MAX).is_err());
    // a symbol listed twice
    assert!(build_table(&[(b'a', 1), (b'b', 1), (b'a', 1)], 3).is_err());
    // and the same lists put right
    assert!(build_table(&[(b'a', 2), (b'b', 1)], 3).is_ok());
    assert!(build_table(&[(b'b', 1), (b'a', 2)], 3).is_ok());
}

#[test]
fn from_channels_wants_valid_channels() {
    assert!(EncodingTable::from_channels(vec![channel(b'a', 2, 3), channel(b'b', 1, 3)]).is_ok());
    // out of order: the lower count first
    assert!(EncodingTable::from_channels(vec![channel(b'b', 1, 3), channel(b'a', 2, 3)]).is_err());
    // out of order: equal counts, the larger symbol first
    assert!(EncodingTable::from_channels(vec![channel(b'b', 1, 2), channel(b'a', 1, 2)]).is_err());
    assert!(EncodingTable::from_channels(vec![channel(b'a', 1, 2), channel(b'b', 1, 2)]).is_ok());
    // a symbol twice
    assert!(EncodingTable::from_channels(vec![channel(b'a', 2, 3), channel(b'a', 1, 3)]).is_err());
    // denominators that differ, or are not the sum of the counts
    assert!(EncodingTable::from_channels(vec![channel(b'a', 2, 3), channel(b'b', 1, 4)]).is_err());
    assert!(EncodingTable::from_channels(vec![channel(b'a', 2, 4), channel(b'b', 1, 4)]).is_err());
    assert!(EncodingTable::from_channels(vec![channel(b'a', 2, 2), channel(b'b', 1, 2)]).is_err());
    // a count of zero
    assert!(EncodingTable::from_channels(vec![channel(b'a', 3, 3), channel(b'b', 0, 3)]).is_err());
    assert!(EncodingTable::from_channels(vec![channel(b'a', 0, 0)]).is_err());
}

#[test]
fn unknown_symbol_is_refused() {
    let table = table_of(b"Hello");
    let error = table.encode(b"Help").unwrap_err();
    assert_eq!(error.symbol, b'p');
    assert_eq!(error.position, 3);
    let error = table.encode(b"xHello").unwrap_err();
    assert_eq!((error.symbol, error.position), (b'x', 0));
    let error = table.encode(b"Hexlxo").unwrap_err();
    assert_eq!((error.symbol, error.position), (b'x', 2));
    assert_eq!(table.channel_index(b'x'), None);
    let error = table.trace(b"Help").unwrap_err();
    assert_eq!((error.symbol, error.position), (b'p', 3));
}

#[test]
fn sentence_pattern_parts_the_generation() {
    let text = b"This is just a test!";
    let table = table_of(text);
    assert_eq!(table.pattern_size(), text.len());
    assert_eq!(table.channels().len(), 11);
    assert_eq!(table.pattern().len(), 11);
    let mut seen = vec![false; text.len()];
    for (pattern, channel) in table.pattern().iter().zip(table.channels().iter()) {
        assert_eq!(pattern.offsets.len(), channel.probability.numerator);
        assert!(pattern.offsets.windows(2).all(|pair| pair[0] < pair[1]));
        for &offset in &pattern.offsets {
            assert!(offset < text.len());
            assert!(!seen[offset]);
            seen[offset] = true;
        }
    }
    assert!(seen.iter().all(|&taken| taken));
    assert_eq!(
        offsets(&table),
        vec![
            vec![0, 11, 15, 18],
            vec![1, 12, 16, 19],
            vec![2, 13, 17],
            vec![3, 14],
            vec![4],
            vec![5],
            vec![6],
            vec![7],
            vec![8],
            vec![9],
            vec![10],
        ]
    );
}

#[test]
fn sentence_round_trip() {
    let text = b"This is just a test!";
    let table = table_of(text);
    let key = table.encode(text).unwrap();
    assert_eq!(key.to_decimal(), "4014576876189831944");
    assert_eq!(table.decode(&key).unwrap(), text.to_vec());
}

#[test]
fn long_input_round_trip() {
    let table = table_of(b"abracadabra");
    let text = b"bracadabra".repeat(5);
    let key = table.encode(&text).unwrap();
    assert_eq!(key.to_u64(), None);
    assert_eq!(key.to_decimal(), "34289459607597529061138654899205");
    assert_eq!(table.decode(&key).unwrap(), text);
}

#[test]
fn very_long_input_round_trip() {
    let mut seed: u32 = 12345;
    let mut text: Vec<u8> = vec![1];
    for _ in 0..2000 {
        seed = seed.wrapping_mul(1_103_515_245).wrapping_add(12_345);
        text.push(((seed >> 16) % 7) as u8 * ((seed >> 20) % 3) as u8);
    }
    let table = table_of(&text);
    let first = table.channels()[0].byte;
    let start = text.iter().position(|&byte| byte != first).unwrap();
    let key = table.encode(&text[start..]).unwrap();
    assert!(key.limbs().len() > 10);
    assert_eq!(table.decode(&key).unwrap(), text[start..].to_vec());
}

#[test]
fn every_sequence_without_leading_first_channel_round_trips() {
    let table = table_of(b"Hello");
    let symbols = b"lHeo";
    for length in 1..=5usize {
        let mut digits = vec![0usize; length];
        loop {
            let text: Vec<u8> = digits.iter().map(|&d| symbols[d]).collect();
            let key = table.encode(&text).unwrap();
            let decoded = table.decode(&key).unwrap();
            if text[0] == b'l' {
                assert_ne!(decoded, text);
            } else {
                assert_eq!(decoded, text);
            }
            let mut place = 0;
            while place < length && digits[place] == 3 {
                digits[place] = 0;
                place += 1;
            }
            if place == length {
                break;
            }
            digits[place] += 1;
        }
    }
}

#[test]
fn leading_symbol_of_the_first_channel_is_lost() {
    let table = table_of(b"Hello");
    assert_eq!(table.encode(b"l").unwrap(), Key::zero());
    assert_eq!(table.encode(b"llll").unwrap(), Key::zero());
    assert_eq!(table.encode(b"lHe").unwrap(), table.encode(b"He").unwrap());
    assert_eq!(table.encode(b"lHe").unwrap(), Key::from_u64(7));
    assert_eq!(table.decode(&table.encode(b"llHe").unwrap()).unwrap(), b"He".to_vec());
    assert_eq!(table.encode(b"Hl").unwrap(), Key::from_u64(4));
}

#[test]
fn encoding_nothing_gives_the_root() {
    for text in [&b"Hello"[..], b"aaa", b"This is just a test!"] {
        let table = table_of(text);
        assert_eq!(table.encode(b"").unwrap(), Key::zero());
        assert_eq!(table.decode(&Key::zero()).unwrap(), Vec::<u8>::new());
        assert_eq!(table.trace(b"").unwrap().len(), 0);
    }
}

#[test]
fn encoding_and_decoding_twice_give_the_same() {
    let table = table_of(b"This is just a test!");
    let first = table.encode(b"test this!").unwrap();
    let second = table.encode(b"test this!").unwrap();
    assert_eq!(first, second);
    assert_eq!(table.decode(&first).unwrap(), table.decode(&first).unwrap());
    let other = table_of(b"This is just a test!");
    assert_eq!(other.encode(b"test this!").unwrap(), first);
    assert_eq!(other.decode(&second).unwrap(), b"test this!".to_vec());
}

#[test]
fn appending_never_shrinks_the_state() {
    let table = table_of(b"abracadabra");
    let text = b"dabracadabraabracadabra";
    let mut before = 0u128;
    for end in 0..=text.len() {
        let key = table.encode(&text[..end]).unwrap();
        let value: u128 = key.to_decimal().parse().unwrap();
        assert!(value >= before);
        before = value;
    }
}

#[test]
fn forward_steps_of_the_hello_table() {
    let table = table_of(b"Hello");
    let expected: [[u64; 4]; 12] = [
        [0, 1, 2, 3],
        [4, 6, 7, 8],
        [5, 11, 12, 13],
        [9, 16, 17, 18],
        [10, 21, 22, 23],
        [14, 26, 27, 28],
        [15, 31, 32, 33],
        [19, 36, 37, 38],
        [20, 41, 42, 43],
        [24, 46, 47, 48],
        [25, 51, 52, 53],
        [29, 56, 57, 58],
    ];
    for (state, row) in expected.iter().enumerate() {
        for (channel_index, &next) in row.iter().enumerate() {
            let key = Key::from_u64(state as u64);
            assert_eq!(table.generate_ref(&key, channel_index), Key::from_u64(next));
        }
    }
}

#[test]
fn backward_steps_of_the_hello_table() {
    let table = table_of(b"Hello");
    let parents: [u64; 12] = [0, 0, 0, 0, 1, 2, 1, 1, 1, 3, 4, 2];
    let channels: [usize; 12] = [0, 1, 2, 3, 0, 0, 1, 2, 3, 0, 0, 1];
    for state in 0..12u64 {
        let key = Key::from_u64(state);
        assert_eq!(table.generate_parent_ref(&key), Key::from_u64(parents[state as usize]));
        assert_eq!(table.determine_channel_index(&key), channels[state as usize]);
    }
    assert_eq!(table.decode(&Key::from_u64(10)).unwrap(), b"Hll".to_vec());
    assert_eq!(table.decode(&Key::from_u64(11)).unwrap(), b"eH".to_vec());
}

#[test]
fn steps_forward_and_back_undo_each_other() {
    for text in [&b"Hello"[..], b"aaa", b"abracadabra", b"This is just a test!"] {
        let table = table_of(text);
        let mut states: Vec<Key> = (0..300u64).map(Key::from_u64).collect();
        states.push(Key::from_u64(u64::MAX));
        states.push(Key::from_u64(u64::MAX).mul_add(u64::MAX, 12345));
        for state in &states {
            for channel_index in 0..table.channels().len() {
                let next = table.generate_ref(state, channel_index);
                assert_eq!(&table.generate_parent_ref(&next), state);
                assert_eq!(table.determine_channel_index(&next), channel_index);
            }
            let parent = table.generate_parent_ref(state);
            let last = table.determine_channel_index(state);
            assert_eq!(&table.generate_ref(&parent, last), state);
        }
    }
}

#[test]
fn decoding_any_state_and_encoding_again_gives_the_state() {
    let table = table_of(b"abracadabra");
    for state in 0..2000u64 {
        let key = Key::from_u64(state);
        let text = table.decode(&key).unwrap();
        assert_eq!(table.encode(&text).unwrap(), key);
        assert!(text.first() != Some(&b'a'));
    }
}

#[test]
fn element_of_a_state() {
    let table = table_of(b"Hello");
    let element = table.generate_element(&Key::from_u64(7));
    assert_eq!(element.key, Key::from_u64(7));
    assert_eq!(element.parent_ref, Key::from_u64(1));
    assert_eq!(element.added_byte, b'e');
    let refs: Vec<Option<u64>> = element.channel_refs.iter().map(|key| key.to_u64()).collect();
    assert_eq!(refs, vec![Some(19), Some(36), Some(37), Some(38)]);
    let root = table.generate_element(&Key::zero());
    assert_eq!(root.parent_ref, Key::zero());
    assert_eq!(root.added_byte, b'l');
    let refs: Vec<Option<u64>> = root.channel_refs.iter().map(|key| key.to_u64()).collect();
    assert_eq!(refs, vec![Some(0), Some(1), Some(2), Some(3)]);
}

#[test]
fn trace_of_hello() {
    let table = table_of(b"Hello");
    let elements = table.trace(b"Hello").unwrap();
    let states: Vec<Option<u64>> = elements.iter().map(|e| e.key.to_u64()).collect();
    assert_eq!(states, vec![Some(0), Some(1), Some(7), Some(19), Some(49)]);
    let text = b"Hello";
    for (position, element) in elements.iter().enumerate() {
        let channel_index = table.channel_index(text[position]).unwrap();
        let next = &element.channel_refs[channel_index];
        assert_eq!(next, &table.encode(&text[..position + 1]).unwrap());
    }
}

#[test]
fn channel_index_finds_every_symbol() {
    let table = table_of(b"Hello");
    assert_eq!(table.channel_index(b'l'), Some(0));
    assert_eq!(table.channel_index(b'H'), Some(1));
    assert_eq!(table.channel_index(b'e'), Some(2));
    assert_eq!(table.channel_index(b'o'), Some(3));
    assert_eq!(table.channel_index(b'h'), None);
}
