use tans::encoding::{insert_channel, position_of_symbol, Channel, Probability};
use tans::probability::ProbabilityTable;
use tans::rendering::{decimal_digits, digit_of, push_padded};

fn pairs(channels: &[Channel]) -> Vec<(u8, usize, usize)> {
    channels
        .iter()
        .map(|c| (c.byte, c.probability.numerator, c.probability.denominator))
        .collect()
}

#[test]
fn new_counts_every_byte() {
    let table = ProbabilityTable::new(b"Hello");
    assert_eq!(table.num_elements(), 5);
    assert_eq!(table.count(b'H'), 1);
    assert_eq!(table.count(b'e'), 1);
    assert_eq!(table.count(b'l'), 2);
    assert_eq!(table.count(b'o'), 1);
    assert_eq!(table.count(b'x'), 0);
    let total: usize = (0..=255u8).map(|byte| table.count(byte)).sum();
    assert_eq!(total, 5);
}

#[test]
fn new_of_nothing_counts_nothing() {
    let table = ProbabilityTable::new(b"");
    assert_eq!(table.num_elements(), 0);
    assert!((0..=255u8).all(|byte| table.count(byte) == 0));
    assert!(table.as_channels().is_empty());
    let table = ProbabilityTable::default();
    assert_eq!(table.num_elements(), 0);
    assert!(table.as_channels().is_empty());
}

#[test]
fn new_counts_all_byte_values() {
    let input: Vec<u8> = (0..=255u8).chain(200..=255u8).collect();
    let table = ProbabilityTable::new(&input);
    assert_eq!(table.num_elements(), 312);
    assert_eq!(table.count(0), 1);
    assert_eq!(table.count(199), 1);
    assert_eq!(table.count(200), 2);
    assert_eq!(table.count(255), 2);
}

#[test]
fn as_channels_orders_by_count_then_symbol() {
    let table = ProbabilityTable::new(b"Hello");
    assert_eq!(
        pairs(&table.as_channels()),
        vec![(b'l', 2, 5), (b'H', 1, 5), (b'e', 1, 5), (b'o', 1, 5)]
    );
}

#[test]
fn as_channels_of_the_sentence() {
    let table = ProbabilityTable::new(b"This is just a test!");
    assert_eq!(
        pairs(&table.as_channels()),
        vec![
            (b' ', 4, 20),
            (b's', 4, 20),
            (b't', 3, 20),
            (b'i', 2, 20),
            (b'!', 1, 20),
            (b'T', 1, 20),
            (b'a', 1, 20),
            (b'e', 1, 20),
            (b'h', 1, 20),
            (b'j', 1, 20),
            (b'u', 1, 20),
        ]
    );
}

#[test]
fn as_channels_is_the_same_on_every_run() {
    let first = pairs(&ProbabilityTable::new(b"abracadabra").as_channels());
    let second = pairs(&ProbabilityTable::new(b"abracadabra").as_channels());
    assert_eq!(first, second);
    assert_eq!(
        first,
        vec![(b'a', 5, 11), (b'b', 2, 11), (b'r', 2, 11), (b'c', 1, 11), (b'd', 1, 11)]
    );
}

#[test]
fn as_markdown_of_hello() {
    let table = ProbabilityTable::new(b"Hello");
    let expected = "| Byte | Char | Count |\n\
                    | ---- | ---- | ----- |\n\
                    |   72 |    H |     1 |\n\
                    |  101 |    e |     1 |\n\
                    |  108 |    l |     2 |\n\
                    |  111 |    o |     1 |";
    assert_eq!(table.as_markdown(), expected);
}

#[test]
fn as_markdown_of_nothing_is_the_heading() {
    let table = ProbabilityTable::new(b"");
    assert_eq!(table.as_markdown(), "| Byte | Char | Count |\n| ---- | ---- | ----- |");
}

#[test]
fn as_markdown_shows_a_line_feed_as_two_characters() {
    let table = ProbabilityTable::new(b"\n\n");
    assert_eq!(
        table.as_markdown(),
        "| Byte | Char | Count |\n| ---- | ---- | ----- |\n|   10 |   \\n |     2 |"
    );
}

#[test]
fn as_markdown_agrees_with_std_formatting() {
    let mut input: Vec<u8> = (0..=255u8).collect();
    input.extend(std::iter::repeat(b'z').take(123_456));
    let table = ProbabilityTable::new(&input);
    let mut lines = vec![
        "| Byte | Char | Count |".to_string(),
        "| ---- | ---- | ----- |".to_string(),
    ];
    for byte in 0..=255u8 {
        let ch = if byte == 10 {
            "\\n".to_string()
        } else {
            String::from(char::from_u32(byte as u32).unwrap())
        };
        lines.push(format!("|  {:>3} | {:>4} | {:>5} |", byte, ch, table.count(byte)));
    }
    assert_eq!(table.count(b'z'), 123_457);
    assert_eq!(table.as_markdown(), lines.join("\n"));
}

#[test]
fn decimal_digits_of_numbers() {
    assert_eq!(decimal_digits(0), vec!['0']);
    assert_eq!(decimal_digits(7), vec!['7']);
    assert_eq!(decimal_digits(10), vec!['1', '0']);
    assert_eq!(decimal_digits(90_210), vec!['9', '0', '2', '1', '0']);
    let digits: String = decimal_digits(usize::MAX).into_iter().collect();
    assert_eq!(digits, usize::MAX.to_string());
    assert_eq!(digit_of(0), '0');
    assert_eq!(digit_of(9), '9');
}

#[test]
fn push_padded_aligns_to_the_right() {
    let mut text = String::from("[");
    push_padded(&mut text, &vec!['4', '2'], 5);
    assert_eq!(text, "[   42");
    push_padded(&mut text, &vec!['a', 'b', 'c'], 3);
    assert_eq!(text, "[   42abc");
    push_padded(&mut text, &vec!['l', 'o', 'n', 'g'], 2);
    assert_eq!(text, "[   42abclong");
    push_padded(&mut text, &vec![], 2);
    assert_eq!(text, "[   42abclong  ");
}

#[test]
fn insert_channel_keeps_the_order() {
    let channel = |byte: u8, count: usize| Channel {
        byte,
        probability: Probability { numerator: count, denominator: 9 },
    };
    let mut channels: Vec<Channel> = Vec::new();
    assert_eq!(insert_channel(&mut channels, channel(b'm', 2)), 0);
    assert_eq!(insert_channel(&mut channels, channel(b'a', 1)), 1);
    assert_eq!(insert_channel(&mut channels, channel(b'z', 3)), 0);
    assert_eq!(insert_channel(&mut channels, channel(b'c', 2)), 1);
    assert_eq!(insert_channel(&mut channels, channel(b'x', 2)), 3);
    assert_eq!(insert_channel(&mut channels, channel(b'b', 1)), 5);
    assert_eq!(
        pairs(&channels),
        vec![(b'z', 3, 9), (b'c', 2, 9), (b'm', 2, 9), (b'x', 2, 9), (b'a', 1, 9), (b'b', 1, 9)]
    );
    assert_eq!(position_of_symbol(&channels, b'm'), Some(2));
    assert_eq!(position_of_symbol(&channels, b'q'), None);
}
