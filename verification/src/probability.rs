//! Counting how often each byte occurs in an input.
use std::collections::HashMap;
use vstd::prelude::*;
use crate::encoding::{
    Channel, Probability, alphabet_of, in_order, insert_channel, is_new_symbol, valid_channels,
    stands_before,
};
use crate::rendering::{decimal, decimal_digits, padded, push_padded};
use crate::spread::{
    sum, sum_to, lemma_sum_all_zero, lemma_sum_insert, lemma_sum_one_term, lemma_sum_raise,
};

verus! {

/// How often `byte` occurs in `input`.
pub open spec fn occurrences(input: Seq<u8>, byte: u8) -> nat
    decreases input.len(),
{
    if input.len() == 0 {
        0
    } else {
        occurrences(input.drop_last(), byte) + if input.last() == byte {
            1nat
        } else {
            0nat
        }
    }
}

/// For every byte value, how often it occurs in `input`.
pub open spec fn histogram(input: Seq<u8>) -> Seq<nat> {
    Seq::new(256, |byte: int| occurrences(input, byte as u8))
}

/// The counts of a histogram add up to the length of the input.
pub proof fn lemma_histogram_sum(input: Seq<u8>)
    ensures
        sum(histogram(input)) == input.len(),
    decreases input.len(),
{
    if input.len() == 0 {
        lemma_sum_all_zero(histogram(input), 256);
    } else {
        lemma_histogram_sum(input.drop_last());
        lemma_sum_raise(
            histogram(input.drop_last()),
            histogram(input),
            256,
            input.last() as int,
        );
    }
}

/// The symbol of a row as it is shown: a line feed as a backslash and the
/// letter n, any other byte as the character with its number.
pub open spec fn shown(byte: u8) -> Seq<char> {
    if byte == 10 {
        seq!['\\', 'n']
    } else {
        seq![byte as char]
    }
}

/// The row of one symbol: its number, the symbol and its count, each
/// aligned to the right in its cell.
pub open spec fn markdown_row(byte: u8, count: nat) -> Seq<char> {
    "|  "@ + padded(decimal(byte as nat), 3) + " | "@ + padded(shown(byte), 4) + " | "@ + padded(
        decimal(count),
        5,
    ) + " |"@
}

/// The rows of the symbols below `upto` that were counted, by rising
/// symbol, each after a line feed.
pub open spec fn markdown_rows(counts: Seq<nat>, upto: nat) -> Seq<char>
    decreases upto,
{
    if upto == 0 {
        Seq::empty()
    } else {
        let byte = (upto - 1) as u8;
        markdown_rows(counts, (upto - 1) as nat) + if counts[upto - 1] > 0 {
            "\n"@ + markdown_row(byte, counts[upto - 1])
        } else {
            Seq::empty()
        }
    }
}

/// The counts as a table with a heading, a rule and one row for each symbol
/// that was counted.
pub open spec fn markdown(counts: Seq<nat>) -> Seq<char> {
    "| Byte | Char | Count |"@ + "\n"@ + "| ---- | ---- | ----- |"@ + markdown_rows(counts, 256)
}

/// Appends a line feed and the row of one symbol to `text`.
fn push_row(text: &mut String, byte: u8, count: usize)
    ensures
        final(text)@ == old(text)@ + ("\n"@ + markdown_row(byte, count as nat)),
{
    let mut ch: Vec<char> = Vec::new();
    if byte == 10 {
        ch.push('\\');
        ch.push('n');
    } else {
        ch.push(byte as char);
    }
    assert(ch@ =~= shown(byte));
    let ghost start = old(text)@;
    text.push_str("\n");
    text.push_str("|  ");
    let ghost row = "|  "@;
    assert(text@ =~= start + ("\n"@ + row));
    push_padded(text, &decimal_digits(byte as usize), 3);
    let ghost row = row + padded(decimal(byte as nat), 3);
    assert(text@ =~= start + ("\n"@ + row));
    text.push_str(" | ");
    let ghost row = row + " | "@;
    assert(text@ =~= start + ("\n"@ + row));
    push_padded(text, &ch, 4);
    let ghost row = row + padded(shown(byte), 4);
    assert(text@ =~= start + ("\n"@ + row));
    text.push_str(" | ");
    let ghost row = row + " | "@;
    assert(text@ =~= start + ("\n"@ + row));
    push_padded(text, &decimal_digits(count), 5);
    let ghost row = row + padded(decimal(count as nat), 5);
    assert(text@ =~= start + ("\n"@ + row));
    text.push_str(" |");
    let ghost row = row + " |"@;
    assert(text@ =~= start + ("\n"@ + row));
}

/// The number of times each byte occurred in an input, and the length of the input.
pub struct ProbabilityTable {
    map: HashMap<u8, usize>,
    num_elements: usize,
}

/// The count that `map` holds for `byte`: 0 where it holds none.
pub open spec fn count_in(map: Map<u8, usize>, byte: u8) -> nat {
    if map.contains_key(byte) {
        map[byte] as nat
    } else {
        0
    }
}

/// For every byte value, the count that `map` holds for it.
pub open spec fn counts_in(map: Map<u8, usize>) -> Seq<nat> {
    Seq::new(256, |byte: int| count_in(map, byte as u8))
}

impl View for ProbabilityTable {
    type V = Seq<nat>;

    /// For every byte value, the number of times it was counted.
    closed spec fn view(&self) -> Seq<nat> {
        counts_in(self.map@)
    }
}

impl Default for ProbabilityTable {
    /// The table of the empty input.
    fn default() -> (table: ProbabilityTable)
        ensures
            table.wf(),
            table@ == histogram(Seq::empty()),
            table.total() == 0,
    {
        let map: HashMap<u8, usize> = HashMap::new();
        proof {
            assert(counts_in(map@) =~= histogram(Seq::empty()));
            lemma_histogram_sum(Seq::empty());
        }
        ProbabilityTable { map, num_elements: 0 }
    }
}

impl ProbabilityTable {
    /// The number of symbols counted.
    pub closed spec fn total(&self) -> nat {
        self.num_elements as nat
    }

    /// The counts add up to the total, and no byte is held with a count of 0.
    #[verifier::type_invariant]
    pub closed spec fn wf(&self) -> bool {
        &&& sum(self@) == self.num_elements
        &&& forall|byte: u8| self.map@.contains_key(byte) ==> self.map@[byte] >= 1
    }

    /// There is a count for each of the 256 byte values.
    pub proof fn lemma_counts(&self)
        ensures
            self@.len() == 256,
    {
    }

    /// Counts the bytes of `input`.
    pub fn new(input: &[u8]) -> (table: ProbabilityTable)
        ensures
            table.wf(),
            table@ == histogram(input@),
            table.total() == input@.len(),
    {
        let mut map: HashMap<u8, usize> = HashMap::new();
        let mut position: usize = 0;
        while position < input.len()
            invariant
                position <= input@.len(),
                forall|byte: u8|
                    count_in(map@, byte) == #[trigger] occurrences(
                        input@.take(position as int),
                        byte,
                    ),
                forall|byte: u8| map@.contains_key(byte) ==> map@[byte] >= 1,
            decreases input@.len() - position,
        {
            let byte: u8 = input[position];
            let ghost read = input@.take(position as int);
            let ghost longer = input@.take(position + 1);
            let count: usize = match map.get(&byte) {
                Some(count) => *count,
                None => 0,
            };
            proof {
                assert(longer.drop_last() =~= read);
                assert(count == occurrences(read, byte));
                lemma_histogram_sum(read);
                assert(histogram(read)[byte as int] == count);
                lemma_sum_one_term(histogram(read), 256, byte as int);
            }
            let ghost counted = map@;
            map.insert(byte, count + 1);
            position = position + 1;
            proof {
                assert forall|other: u8| count_in(map@, other) == #[trigger] occurrences(
                    longer,
                    other,
                ) by {
                    assert(occurrences(read, other) == count_in(counted, other));
                }
            }
        }
        proof {
            assert(input@.take(position as int) =~= input@);
            assert(counts_in(map@) =~= histogram(input@));
            lemma_histogram_sum(input@);
        }
        ProbabilityTable { map, num_elements: input.len() }
    }

    /// How often `byte` was counted.
    pub fn count(&self, byte: u8) -> (count: usize)
        ensures
            count == self@[byte as int],
    {
        match self.map.get(&byte) {
            Some(count) => *count,
            None => 0,
        }
    }

    /// The number of symbols counted.
    pub fn num_elements(&self) -> (total: usize)
        ensures
            total == self.total(),
    {
        self.num_elements
    }

    /// The counts as a table in Markdown, one row for each symbol counted.
    pub fn as_markdown(&self) -> (text: String)
        ensures
            text@ == markdown(self@),
    {
        proof {
            use_type_invariant(self);
        }
        let mut text = String::new();
        text.push_str("| Byte | Char | Count |");
        text.push_str("\n");
        text.push_str("| ---- | ---- | ----- |");
        let ghost heading = text@;
        assert(heading =~= "| Byte | Char | Count |"@ + "\n"@ + "| ---- | ---- | ----- |"@);
        let mut symbol: usize = 0;
        while symbol < 256
            invariant
                symbol <= 256,
                self.wf(),
                text@ == heading + markdown_rows(self@, symbol as nat),
            decreases 256 - symbol,
        {
            let byte: u8 = symbol as u8;
            let ghost rows = markdown_rows(self@, symbol as nat);
            match self.map.get(&byte) {
                Some(count) => {
                    assert(self@[symbol as int] == *count);
                    push_row(&mut text, byte, *count);
                    assert(text@ =~= heading + (rows + ("\n"@ + markdown_row(byte, *count as nat))));
                },
                None => {
                    assert(self@[symbol as int] == 0);
                    assert(text@ =~= heading + (rows + Seq::<char>::empty()));
                },
            }
            symbol = symbol + 1;
        }
        text
    }

    /// The symbols that were counted, each with its frequency, ordered by
    /// falling count and, among equal counts, by rising symbol.
    pub fn as_channels(&self) -> (channels: Vec<Channel>)
        ensures
            self.total() > 0 ==> valid_channels(channels@),
            self.total() == 0 ==> channels@.len() == 0,
            in_order(channels@),
            forall|c: int|
                0 <= c < channels@.len() ==> (#[trigger] channels@[c]).probability.numerator
                    == self@[channels@[c].byte as int] && channels@[c].probability.denominator
                    == self.total(),
            forall|byte: u8|
                #[trigger] self@[byte as int] > 0 ==> exists|c: int|
                    0 <= c < channels@.len() && (#[trigger] channels@[c]).byte == byte,
    {
        proof {
            use_type_invariant(self);
        }
        let mut channels: Vec<Channel> = Vec::new();
        let ghost mut place_of: Seq<int> = Seq::empty();
        let mut symbol: usize = 0;
        while symbol < 256
            invariant
                symbol <= 256,
                self.wf(),
                in_order(channels@),
                place_of.len() == symbol,
                forall|c: int|
                    0 <= c < channels@.len() ==> {
                        &&& (#[trigger] channels@[c]).byte < symbol
                        &&& channels@[c].probability.numerator == self@[channels@[c].byte as int]
                        &&& channels@[c].probability.numerator >= 1
                        &&& channels@[c].probability.denominator == self.num_elements
                    },
                forall|c: int, d: int|
                    0 <= c < d < channels@.len() ==> (#[trigger] channels@[c]).byte
                        != (#[trigger] channels@[d]).byte,
                forall|byte: int|
                    0 <= byte < symbol && self@[byte] > 0 ==> 0 <= #[trigger] place_of[byte]
                        < channels@.len() && channels@[place_of[byte]].byte == byte,
                sum(alphabet_of(channels@).counts) == sum_to(self@, symbol as nat),
            decreases 256 - symbol,
        {
            let byte: u8 = symbol as u8;
            let ghost before = channels@;
            let ghost old_place = place_of;
            match self.map.get(&byte) {
                Some(count) => {
                    let channel = Channel {
                        byte,
                        probability: Probability {
                            numerator: *count,
                            denominator: self.num_elements,
                        },
                    };
                    assert(is_new_symbol(channels@, byte));
                    let place = insert_channel(&mut channels, channel);
                    proof {
                        place_of =
                        Seq::new(
                            (symbol + 1) as nat,
                            |b: int|
                                if b == symbol {
                                    place as int
                                } else if old_place[b] >= place {
                                    old_place[b] + 1
                                } else {
                                    old_place[b]
                                },
                        );
                        assert(alphabet_of(channels@).counts =~= alphabet_of(
                            before,
                        ).counts.insert(place as int, *count as nat));
                        lemma_sum_insert(alphabet_of(before).counts, place as int, *count as nat);
                        assert(self@[symbol as int] == *count);
                        assert forall|c: int, d: int|
                            0 <= c < d < channels@.len() implies (#[trigger] channels@[c]).byte
                            != (#[trigger] channels@[d]).byte by {
                            if c < place && d > place {
                                assert(before[c].byte != before[d - 1].byte);
                            } else if c > place {
                                assert(before[c - 1].byte != before[d - 1].byte);
                            }
                        }
                    }
                },
                None => {
                    proof {
                        place_of = old_place.push(-1);
                        assert(self@[symbol as int] == 0);
                    }
                },
            }
            symbol = symbol + 1;
        }
        proof {
            let alphabet = alphabet_of(channels@);
            if channels@.len() > 0 {
                lemma_sum_one_term(alphabet.counts, channels@.len(), 0);
                assert(alphabet.counts[0] >= 1);
                assert forall|c: int, d: int|
                    0 <= c < d < channels@.len() implies alphabet.precedes(c, d) by {
                    assert(stands_before(channels@[c], channels@[d]));
                }
            }
            assert forall|byte: u8| #[trigger] self@[byte as int] > 0 implies exists|c: int|
                0 <= c < channels@.len() && (#[trigger] channels@[c]).byte == byte by {
                assert(channels@[place_of[byte as int]].byte == byte);
            }
        }
        channels
    }
}

} // verus!
