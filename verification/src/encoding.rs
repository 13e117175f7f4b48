//! The encoding table: the channels of a distribution, the spread of a
//! generation's slots over them, and the coding of byte sequences as keys.
use vstd::prelude::*;
use vstd::arithmetic::div_mod::lemma_mod_self_0;
use vstd::arithmetic::div_mod::lemma_small_mod;
use crate::alphabet::Alphabet;
use crate::key::Key;
use crate::probability::ProbabilityTable;
use crate::spread::{
    sum, sum_to, level, spread_offset, owns, lemma_sum_agree, lemma_sum_lt,
    lemma_sum_one_term, lemma_sum_raise, lemma_sum_prefix, lemma_sum_insert, lemma_owner_unique,
    lemma_spread_origin,
};

verus! {

/// How often a symbol occurs: `numerator` times among `denominator` symbols.
#[derive(Debug, Clone, Copy)]
pub struct Probability {
    pub numerator: usize,
    pub denominator: usize,
}

/// A symbol with its frequency.
#[derive(Debug, Clone, Copy)]
pub struct Channel {
    pub byte: u8,
    pub probability: Probability,
}

/// The slots of one channel within a generation, in increasing order.
#[derive(Debug)]
pub struct ChannelPattern {
    pub offsets: Vec<usize>,
}

impl Clone for ChannelPattern {
    fn clone(&self) -> (copy: ChannelPattern)
        ensures
            copy.offsets@ == self.offsets@,
    {
        ChannelPattern { offsets: self.offsets.clone() }
    }
}

impl Default for ChannelPattern {
    /// The pattern without slots.
    fn default() -> (pattern: ChannelPattern)
        ensures
            pattern.offsets@.len() == 0,
    {
        ChannelPattern { offsets: Vec::new() }
    }
}

/// A state with its surroundings: the state it was reached from, the symbol
/// that was appended to reach it, and the state that each channel leads to.
#[derive(Debug)]
pub struct Element {
    pub key: Key,
    pub parent_ref: Key,
    pub channel_refs: Vec<Key>,
    pub added_byte: u8,
}

/// A distribution from which no table can be built.
#[derive(Debug, Clone, Copy)]
pub struct ConfigurationError;

/// A symbol that the table's alphabet does not hold, met at `position` of the input.
#[derive(Debug, Clone, Copy)]
pub struct UnknownSymbolError {
    pub symbol: u8,
    pub position: usize,
}

/// A state from which no way leads back to the root.
#[derive(Debug, Clone, Copy)]
pub struct InvalidStateError;

/// The coder of one distribution.
pub struct EncodingTable {
    channels: Vec<Channel>,
    pattern: Vec<ChannelPattern>,
    pattern_size: usize,
    slot_channel: Vec<usize>,
    slot_index: Vec<usize>,
}

/// The alphabet that a list of channels stands for.
pub open spec fn alphabet_of(channels: Seq<Channel>) -> Alphabet {
    Alphabet {
        symbols: Seq::new(channels.len(), |c: int| channels[c].byte),
        counts: Seq::new(channels.len(), |c: int| channels[c].probability.numerator as nat),
    }
}

/// Whether `a` stands before `b` in the order of channels: it has the higher
/// count, or the same count and the smaller symbol.
pub open spec fn stands_before(a: Channel, b: Channel) -> bool {
    a.probability.numerator > b.probability.numerator || (a.probability.numerator
        == b.probability.numerator && a.byte < b.byte)
}

/// Whether every channel of the list stands before those that follow it.
pub open spec fn in_order(channels: Seq<Channel>) -> bool {
    forall|c: int, d: int|
        0 <= c < d < channels.len() ==> stands_before(#[trigger] channels[c], #[trigger] channels[d])
}

/// Whether `byte` is the symbol of none of the channels.
pub open spec fn is_new_symbol(channels: Seq<Channel>, byte: u8) -> bool {
    forall|c: int| 0 <= c < channels.len() ==> (#[trigger] channels[c]).byte != byte
}

/// A distribution from which a table can be built: there is a symbol, no
/// symbol is listed twice, every count lies between 1 and `total`, and the
/// counts add up to `total`.
pub open spec fn valid_frequencies(frequencies: Seq<(u8, usize)>, total: usize) -> bool {
    &&& frequencies.len() >= 1
    &&& total >= 1
    &&& forall|i: int| 0 <= i < frequencies.len() ==> 1 <= (#[trigger] frequencies[i]).1 <= total
    &&& forall|i: int, j: int|
        0 <= i < j < frequencies.len() ==> (#[trigger] frequencies[i]).0
            != (#[trigger] frequencies[j]).0
    &&& sum(Seq::new(frequencies.len(), |i: int| frequencies[i].1 as nat)) == total
}

/// The offsets that a list of patterns holds, as numbers.
pub open spec fn offsets_of(pattern: Seq<ChannelPattern>) -> Seq<Seq<nat>> {
    Seq::new(
        pattern.len(),
        |c: int| Seq::new(pattern[c].offsets@.len(), |j: int| pattern[c].offsets@[j] as nat),
    )
}

/// A list of channels from which a table can be built: its alphabet is
/// valid, and the denominator of every channel is the sum of all counts.
pub open spec fn valid_channels(channels: Seq<Channel>) -> bool {
    &&& alphabet_of(channels).valid()
    &&& forall|c: int|
        0 <= c < channels.len() ==> (#[trigger] channels[c]).probability.denominator
            == alphabet_of(channels).total()
}

/// Whether `element` shows `state` with its surroundings: the state itself,
/// its parent, the symbol of its last channel, and for every channel the
/// state that the channel leads to.
pub open spec fn is_element(alphabet: Alphabet, state: nat, element: Element) -> bool {
    &&& element.key@ == state
    &&& element.parent_ref@ == alphabet.parent(state)
    &&& element.added_byte == alphabet.symbols[alphabet.last_channel(state)]
    &&& element.channel_refs@.len() == alphabet.size()
    &&& forall|c: int|
        0 <= c < alphabet.size() ==> (#[trigger] element.channel_refs@[c])@ == alphabet.forward(
            state,
            c,
        )
}

/// Whether `error` names the first symbol of `bytes` that the alphabet does
/// not hold.
pub open spec fn first_unknown(alphabet: Alphabet, bytes: Seq<u8>, error: UnknownSymbolError) -> bool {
    &&& error.position < bytes.len()
    &&& error.symbol == bytes[error.position as int]
    &&& !alphabet.knows(error.symbol)
    &&& alphabet.knows_all(bytes.take(error.position as int))
}

/// What tracing the encoding of `bytes` gives: for every symbol the element
/// of the state that the symbols before it lead to, or the first symbol that
/// the alphabet does not hold.
pub open spec fn trace_outcome(
    alphabet: Alphabet,
    bytes: Seq<u8>,
    outcome: Result<Vec<Element>, UnknownSymbolError>,
) -> bool {
    match outcome {
        Ok(elements) => {
            &&& alphabet.knows_all(bytes)
            &&& elements@.len() == bytes.len()
            &&& forall|i: int|
                0 <= i < bytes.len() ==> is_element(
                    alphabet,
                    alphabet.encoded(bytes.take(i)),
                    #[trigger] elements@[i],
                )
        },
        Err(error) => first_unknown(alphabet, bytes, error),
    }
}

/// What encoding `bytes` gives: the state that the symbols lead to from the
/// root, or the first symbol that the alphabet does not hold.
pub open spec fn encode_outcome(
    alphabet: Alphabet,
    bytes: Seq<u8>,
    outcome: Result<Key, UnknownSymbolError>,
) -> bool {
    match outcome {
        Ok(key) => alphabet.knows_all(bytes) && key@ == alphabet.encoded(bytes),
        Err(error) => first_unknown(alphabet, bytes, error),
    }
}

/// What decoding `state` gives: the symbols on the way back to the root,
/// or an error where that way does not end, which is so for every state
/// but the root where the alphabet has one symbol only.
pub open spec fn decode_outcome(
    alphabet: Alphabet,
    state: nat,
    outcome: Result<Vec<u8>, InvalidStateError>,
) -> bool {
    match outcome {
        Ok(bytes) => (alphabet.decodable() || state == 0) && bytes@ == alphabet.decoded(state),
        Err(_) => !alphabet.decodable() && state != 0,
    }
}

impl View for EncodingTable {
    type V = Alphabet;

    /// The alphabet of the table.
    closed spec fn view(&self) -> Alphabet {
        alphabet_of(self.channels@)
    }
}

impl EncodingTable {
    /// The channels of the table, in order.
    pub closed spec fn channel_list(&self) -> Seq<Channel> {
        self.channels@
    }

    /// The pattern of every channel, in the order of the channels.
    pub closed spec fn pattern_list(&self) -> Seq<ChannelPattern> {
        self.pattern@
    }

    /// The size of a generation, as the table holds it.
    pub closed spec fn generation_size(&self) -> usize {
        self.pattern_size
    }

    /// The table holds a valid list of channels, the spread of its alphabet,
    /// and for every slot the channel and position that hold it.
    #[verifier::type_invariant]
    pub closed spec fn wf(&self) -> bool {
        &&& valid_channels(self.channels@)
        &&& self.pattern_size == self@.total()
        &&& self.pattern@.len() == self.channels@.len()
        &&& forall|c: int|
            0 <= c < self.pattern@.len() ==> (#[trigger] self.pattern@[c]).offsets@.len()
                == self@.counts[c]
        &&& forall|c: int, j: int|
            0 <= c < self.pattern@.len() && 0 <= j < self.pattern@[c].offsets@.len()
                ==> #[trigger] self.pattern@[c].offsets@[j] == self@.offset(c, j)
        &&& self.slot_channel@.len() == self.pattern_size
        &&& self.slot_index@.len() == self.pattern_size
        &&& forall|s: int|
            0 <= s < self.pattern_size ==> owns(
                self@.counts,
                #[trigger] self.slot_channel@[s] as int,
                self.slot_index@[s] as int,
                s as nat,
            )
    }

    /// A well-formed table has a valid alphabet, which is that of its
    /// channels, and holds the offsets and the generation size of that alphabet.
    pub proof fn lemma_wf(&self)
        requires
            self.wf(),
        ensures
            self@.valid(),
            self@ == alphabet_of(self.channel_list()),
            valid_channels(self.channel_list()),
            offsets_of(self.pattern_list()) == self@.offsets(),
            self.generation_size() == self@.total(),
    {
        let held = offsets_of(self.pattern_list());
        let spread = self@.offsets();
        assert(held.len() == spread.len());
        assert forall|c: int| 0 <= c < held.len() implies held[c] == spread[c] by {
            assert(self.pattern@[c].offsets@.len() == self@.counts[c]);
            assert forall|j: int| 0 <= j < held[c].len() implies held[c][j] == spread[c][j] by {
                assert(self.pattern@[c].offsets@[j] == self@.offset(c, j));
            }
            assert(held[c] =~= spread[c]);
        }
        assert(held =~= spread);
    }

    /// Constructs the pattern of the channels, and the table with it.
    fn init_pattern(channels: Vec<Channel>) -> (table: EncodingTable)
        requires
            valid_channels(channels@),
        ensures
            table.wf(),
            table.channel_list() == channels@,
    {
        let n: usize = channels.len();
        let pattern_size: usize = channels[0].probability.denominator;
        let ghost counts = alphabet_of(channels@).counts;
        let mut channel_patterns: Vec<ChannelPattern> = Vec::new();
        let mut made: usize = 0;
        while made < n
            invariant
                made <= n,
                channel_patterns.len() == made,
                forall|c: int|
                    0 <= c < made ==> (#[trigger] channel_patterns@[c]).offsets@.len() == 0,
            decreases n - made,
        {
            channel_patterns.push(ChannelPattern::default());
            made = made + 1;
        }
        let mut slot_channel: Vec<usize> = Vec::new();
        let mut slot_index: Vec<usize> = Vec::new();
        let mut elements: usize = 0;
        let mut cursor: usize = 0;
        let ghost mut round: nat = 0;
        proof {
            lemma_spread_origin(counts);
        }
        while elements < pattern_size
            invariant
                n == channels.len(),
                n >= 1,
                counts == alphabet_of(channels@).counts,
                counts.len() == n,
                pattern_size == sum(counts),
                cursor < n,
                channel_patterns.len() == n,
                elements == spread_offset(counts, cursor as int, round),
                elements <= pattern_size,
                forall|d: int|
                    0 <= d < n ==> (#[trigger] channel_patterns@[d]).offsets@.len() == level(
                        counts,
                        cursor as int,
                        round,
                    )[d],
                forall|d: int, j: int|
                    0 <= d < n && 0 <= j < channel_patterns@[d].offsets@.len()
                        ==> #[trigger] channel_patterns@[d].offsets@[j] == spread_offset(
                        counts,
                        d,
                        j as nat,
                    ),
                slot_channel.len() == elements,
                slot_index.len() == elements,
                forall|s: int|
                    0 <= s < elements ==> owns(
                        counts,
                        #[trigger] slot_channel@[s] as int,
                        slot_index@[s] as int,
                        s as nat,
                    ),
            decreases pattern_size - round, n - cursor,
        {
            let ghost reached = level(counts, cursor as int, round);
            let ghost served = level(counts, cursor + 1, round);
            proof {
                if round >= pattern_size {
                    assert forall|d: int| 0 <= d < n implies reached[d] == counts[d] by {
                        lemma_sum_one_term(counts, n as nat, d);
                    }
                    lemma_sum_agree(reached, counts, n as nat);
                }
            }
            let held: usize = channel_patterns[cursor].offsets.len();
            assert(held == reached[cursor as int]);
            if held < channels[cursor].probability.numerator {
                slot_channel.push(cursor);
                slot_index.push(held);
                channel_patterns[cursor].offsets.push(elements);
                elements = elements + 1;
                proof {
                    lemma_sum_raise(reached, served, n as nat, cursor as int);
                }
            } else {
                proof {
                    lemma_sum_agree(reached, served, n as nat);
                }
            }
            assert(elements == sum(served));
            assert(forall|d: int|
                0 <= d < n ==> (#[trigger] channel_patterns@[d]).offsets@.len() == served[d]);
            proof {
                if cursor + 1 == n {
                    lemma_mod_self_0(n as int);
                    assert(served =~= level(counts, 0, round + 1));
                    round = round + 1;
                } else {
                    lemma_small_mod((cursor + 1) as nat, n as nat);
                }
            }
            cursor = (cursor + 1) % n;
        }
        proof {
            let reached = level(counts, cursor as int, round);
            assert forall|d: int| 0 <= d < n implies reached[d] == counts[d] by {
                if reached[d] < counts[d] {
                    lemma_sum_lt(reached, counts, n as nat, d);
                }
            }
        }
        EncodingTable {
            channels,
            pattern: channel_patterns,
            pattern_size,
            slot_channel,
            slot_index,
        }
    }

    /// Builds the table of a list of channels, or refuses a list that is not valid.
    pub fn from_channels(channels: Vec<Channel>) -> (built: Result<
        EncodingTable,
        ConfigurationError,
    >)
        ensures
            built.is_ok() == valid_channels(channels@),
            built matches Ok(table) ==> table.wf() && table.channel_list() == channels@,
    {
        if !channels_are_valid(&channels) {
            return Err(ConfigurationError);
        }
        Ok(EncodingTable::init_pattern(channels))
    }

    /// Builds the table of the distribution that `value` has counted. There
    /// is none where nothing was counted.
    pub fn from(value: &ProbabilityTable) -> (built: Result<EncodingTable, ConfigurationError>)
        ensures
            built.is_ok() == (value.total() > 0),
            built matches Ok(table) ==> {
                &&& table.wf()
                &&& table@.total() == value.total()
                &&& forall|c: int|
                    0 <= c < table@.size() ==> table@.counts[c]
                        == value@[(#[trigger] table@.symbols[c]) as int]
                &&& forall|byte: u8| value@[byte as int] > 0 ==> #[trigger] table@.knows(byte)
            },
    {
        proof {
            use_type_invariant(value);
        }
        let channels = value.as_channels();
        let built = EncodingTable::from_channels(channels);
        proof {
            value.lemma_counts();
            if let Ok(table) = &built {
                table.lemma_wf();
                assert(channels@[0].probability.denominator == value.total());
                assert forall|c: int| 0 <= c < table@.size() implies table@.counts[c]
                    == value@[(#[trigger] table@.symbols[c]) as int] by {
                    assert(channels@[c].probability.numerator == value@[channels@[c].byte as int]);
                }
                assert forall|byte: u8| value@[byte as int] > 0 implies #[trigger] table@.knows(
                    byte,
                ) by {
                    let c = choose|c: int| 0 <= c < channels@.len() && channels@[c].byte == byte;
                    assert(table@.symbols[c] == byte);
                }
            }
        }
        built
    }

    /// The state that `channel_index` leads to from `key`.
    pub fn generate_ref(&self, key: &Key, channel_index: usize) -> (next: Key)
        requires
            channel_index < self@.size(),
        ensures
            next@ == self@.forward(key@, channel_index as int),
    {
        proof {
            use_type_invariant(self);
        }
        let pattern_size: usize = self.pattern_size;
        let pattern = &self.pattern[channel_index];
        let count: usize = pattern.offsets.len();
        let (pattern_index, offset_index) = key.div_rem(count as u64);
        let offset: usize = pattern.offsets[offset_index as usize];
        pattern_index.mul_add(pattern_size as u64, offset as u64)
    }

    /// Determine the channel index of the current key.
    ///
    /// Which was the last chosen channel to get from the parent to the given key.
    pub fn determine_channel_index(&self, key: &Key) -> (channel_index: usize)
        ensures
            channel_index == self@.last_channel(key@),
            channel_index < self@.size(),
    {
        proof {
            use_type_invariant(self);
        }
        let (_, slot) = key.div_rem(self.pattern_size as u64);
        let channel_index: usize = self.slot_channel[slot as usize];
        proof {
            lemma_owner_unique(
                self@.counts,
                channel_index as int,
                self.slot_index@[slot as int] as int,
                slot as nat,
            );
        }
        channel_index
    }

    /// The state from which `key` was reached.
    pub fn generate_parent_ref(&self, key: &Key) -> (parent: Key)
        ensures
            parent@ == self@.parent(key@),
    {
        proof {
            use_type_invariant(self);
        }
        let (generation, slot) = key.div_rem(self.pattern_size as u64);
        let channel_index: usize = self.slot_channel[slot as usize];
        let offset_index: usize = self.slot_index[slot as usize];
        proof {
            lemma_owner_unique(
                self@.counts,
                channel_index as int,
                offset_index as int,
                slot as nat,
            );
        }
        let count: usize = self.pattern[channel_index].offsets.len();
        generation.mul_add(count as u64, offset_index as u64)
    }

    /// The state with its parent, the symbol appended last, and the state
    /// that each channel leads to.
    pub fn generate_element(&self, key: &Key) -> (element: Element)
        ensures
            is_element(self@, key@, element),
    {
        proof {
            use_type_invariant(self);
        }
        let parent_ref = self.generate_parent_ref(key);
        let added_byte: u8 = self.channels[self.determine_channel_index(key)].byte;
        let mut channel_refs: Vec<Key> = Vec::new();
        let n: usize = self.channels.len();
        let mut channel_index: usize = 0;
        while channel_index < n
            invariant
                self.wf(),
                n == self@.size(),
                channel_index <= n,
                channel_refs.len() == channel_index,
                forall|c: int|
                    0 <= c < channel_index ==> (#[trigger] channel_refs@[c])@ == self@.forward(
                        key@,
                        c,
                    ),
            decreases n - channel_index,
        {
            let generate_ref = self.generate_ref(key, channel_index);
            channel_refs.push(generate_ref);
            channel_index = channel_index + 1;
        }
        Element { key: key.clone(), parent_ref, channel_refs, added_byte }
    }

    /// The channel of `byte`, if the alphabet holds it.
    pub fn channel_index(&self, byte: u8) -> (found: Option<usize>)
        ensures
            found.is_some() == self@.knows(byte),
            found matches Some(channel_index) ==> channel_index == self@.channel_of(byte)
                && channel_index < self@.size(),
    {
        proof {
            use_type_invariant(self);
        }
        let found = position_of_symbol(&self.channels, byte);
        proof {
            match found {
                Some(channel_index) => {
                    assert(self@.symbols[channel_index as int] == byte);
                    self@.lemma_channel_of_symbol(channel_index as int);
                },
                None => {
                    assert forall|c: int| 0 <= c < self@.size() implies self@.symbols[c]
                        != byte by {
                        assert(self.channels@[c].byte != byte);
                    }
                },
            }
        }
        found
    }

    /// Encodes `bytes`: the state reached from the root by appending them in order.
    pub fn encode(&self, bytes: &[u8]) -> (encoded: Result<Key, UnknownSymbolError>)
        ensures
            encode_outcome(self@, bytes@, encoded),
    {
        proof {
            use_type_invariant(self);
        }
        let mut current_key = Key::zero();
        let mut position: usize = 0;
        while position < bytes.len()
            invariant
                self.wf(),
                position <= bytes@.len(),
                self@.knows_all(bytes@.take(position as int)),
                current_key@ == self@.encoded(bytes@.take(position as int)),
            decreases bytes@.len() - position,
        {
            let byte: u8 = bytes[position];
            let ghost read = bytes@.take(position + 1);
            proof {
                assert(read.drop_last() =~= bytes@.take(position as int));
                assert(read.last() == byte);
            }
            match self.channel_index(byte) {
                Some(channel_index) => {
                    let next_key = self.generate_ref(&current_key, channel_index);
                    current_key = next_key;
                },
                None => {
                    return Err(UnknownSymbolError { symbol: byte, position });
                },
            }
            position = position + 1;
        }
        proof {
            assert(bytes@.take(position as int) =~= bytes@);
        }
        Ok(current_key)
    }

    /// The steps of encoding `bytes`: for every symbol, the element of the
    /// state at which the symbol is appended.
    pub fn trace(&self, bytes: &[u8]) -> (traced: Result<Vec<Element>, UnknownSymbolError>)
        ensures
            trace_outcome(self@, bytes@, traced),
    {
        proof {
            use_type_invariant(self);
        }
        let mut elements: Vec<Element> = Vec::new();
        let mut current_key = Key::zero();
        let mut position: usize = 0;
        while position < bytes.len()
            invariant
                self.wf(),
                position <= bytes@.len(),
                self@.knows_all(bytes@.take(position as int)),
                current_key@ == self@.encoded(bytes@.take(position as int)),
                elements@.len() == position,
                forall|i: int|
                    0 <= i < position ==> is_element(
                        self@,
                        self@.encoded(bytes@.take(i)),
                        #[trigger] elements@[i],
                    ),
            decreases bytes@.len() - position,
        {
            let byte: u8 = bytes[position];
            let ghost read = bytes@.take(position + 1);
            proof {
                assert(read.drop_last() =~= bytes@.take(position as int));
                assert(read.last() == byte);
            }
            match self.channel_index(byte) {
                Some(channel_index) => {
                    elements.push(self.generate_element(&current_key));
                    let next_key = self.generate_ref(&current_key, channel_index);
                    current_key = next_key;
                },
                None => {
                    return Err(UnknownSymbolError { symbol: byte, position });
                },
            }
            position = position + 1;
        }
        proof {
            assert(bytes@.take(position as int) =~= bytes@);
        }
        Ok(elements)
    }

    /// Decodes `key`: the symbols on the way from the state back to the root,
    /// in the order in which they were appended.
    pub fn decode(&self, key: &Key) -> (decoded: Result<Vec<u8>, InvalidStateError>)
        ensures
            decode_outcome(self@, key@, decoded),
    {
        proof {
            use_type_invariant(self);
        }
        if key.is_zero() {
            return Ok(Vec::new());
        }
        if self.channels.len() < 2 {
            return Err(InvalidStateError);
        }
        let mut result: Vec<u8> = Vec::new();
        let mut current_key = key.clone();
        while !current_key.is_zero()
            invariant
                self.wf(),
                self@.decodable(),
                self@.decoded(key@) == self@.decoded(current_key@) + result@.reverse(),
            decreases current_key@,
        {
            let channel_index = self.determine_channel_index(&current_key);
            let byte: u8 = self.channels[channel_index].byte;
            let ghost collected = result@;
            result.push(byte);
            let parent = self.generate_parent_ref(&current_key);
            proof {
                self@.lemma_parent_below(current_key@);
                assert(result@.reverse() =~= seq![byte] + collected.reverse());
                assert(self@.decoded(parent@).push(byte) + collected.reverse() =~= self@.decoded(
                    parent@,
                ) + result@.reverse());
            }
            current_key = parent;
        }
        Ok(reversed(&result))
    }

    /// The channels of the table, in order.
    pub fn channels(&self) -> (channels: &Vec<Channel>)
        ensures
            channels@ == self.channel_list(),
    {
        &self.channels
    }

    /// The slots of every channel within a generation.
    pub fn pattern(&self) -> (pattern: &Vec<ChannelPattern>)
        ensures
            pattern@ == self.pattern_list(),
    {
        &self.pattern
    }

    /// The size of a generation.
    pub fn pattern_size(&self) -> (pattern_size: usize)
        ensures
            pattern_size == self.generation_size(),
    {
        self.pattern_size
    }
}

/// The place of the channel of `byte` in the list, if there is one.
pub fn position_of_symbol(channels: &Vec<Channel>, byte: u8) -> (found: Option<usize>)
    ensures
        found.is_none() == is_new_symbol(channels@, byte),
        found matches Some(c) ==> c < channels@.len() && channels@[c as int].byte == byte
            && is_new_symbol(channels@.take(c as int), byte),
{
    let n: usize = channels.len();
    let mut c: usize = 0;
    while c < n
        invariant
            n == channels@.len(),
            c <= n,
            is_new_symbol(channels@.take(c as int), byte),
        decreases n - c,
    {
        if channels[c].byte == byte {
            return Some(c);
        }
        assert(is_new_symbol(channels@.take(c + 1), byte)) by {
            assert forall|d: int| 0 <= d < c + 1 implies (#[trigger] channels@.take(c + 1)[d]).byte
                != byte by {
                if d < c {
                    assert(channels@.take(c as int)[d].byte != byte);
                }
            }
        }
        c = c + 1;
    }
    assert(channels@.take(n as int) =~= channels@);
    None
}

/// Whether `a` stands before `b` in the order of channels.
pub fn is_before(a: &Channel, b: &Channel) -> (before: bool)
    ensures
        before == stands_before(*a, *b),
{
    a.probability.numerator > b.probability.numerator || (a.probability.numerator
        == b.probability.numerator && a.byte < b.byte)
}

/// Puts `channel` into an ordered list at its place, and says where that is.
pub fn insert_channel(channels: &mut Vec<Channel>, channel: Channel) -> (place: usize)
    requires
        in_order(old(channels)@),
        is_new_symbol(old(channels)@, channel.byte),
    ensures
        place <= old(channels)@.len(),
        final(channels)@ == old(channels)@.insert(place as int, channel),
        in_order(final(channels)@),
{
    let n: usize = channels.len();
    let mut place: usize = 0;
    while place < n && is_before(&channels[place], &channel)
        invariant
            n == channels@.len(),
            place <= n,
            channels@ == old(channels)@,
            forall|c: int| 0 <= c < place ==> stands_before(#[trigger] channels@[c], channel),
        decreases n - place,
    {
        place = place + 1;
    }
    let ghost before = channels@;
    channels.insert(place, channel);
    proof {
        assert forall|c: int, d: int| 0 <= c < d < channels@.len() implies stands_before(
            #[trigger] channels@[c],
            #[trigger] channels@[d],
        ) by {
            if d < place {
                assert(stands_before(before[c], before[d]));
            } else if d == place {
                assert(stands_before(before[c], channel));
            } else if c == place {
                assert(!stands_before(before[place as int], channel));
                assert(before[place as int].byte != channel.byte);
                if d - 1 > place {
                    assert(stands_before(before[place as int], before[d - 1]));
                }
            } else if c < place {
                assert(stands_before(before[c], before[d - 1]));
            } else {
                assert(stands_before(before[c - 1], before[d - 1]));
            }
        }
    }
    place
}

/// Builds the table of a distribution: `frequencies` lists every symbol
/// with its count, in any order, and `total` is the sum of the counts.
pub fn build_table(frequencies: &[(u8, usize)], total: usize) -> (built: Result<
    EncodingTable,
    ConfigurationError,
>)
    ensures
        built.is_ok() == valid_frequencies(frequencies@, total),
        built matches Ok(table) ==> {
            &&& table.wf()
            &&& table@.total() == total
            &&& table@.size() == frequencies@.len()
            &&& forall|i: int|
                0 <= i < frequencies@.len() ==> table@.knows((#[trigger] frequencies@[i]).0)
                    && table@.counts[table@.channel_of(frequencies@[i].0)] == frequencies@[i].1
        },
{
    let n: usize = frequencies.len();
    let ghost counts = Seq::new(frequencies@.len(), |i: int| frequencies@[i].1 as nat);
    let mut channels: Vec<Channel> = Vec::new();
    let ghost mut place_of: Seq<int> = Seq::empty();
    let ghost mut source_of: Seq<int> = Seq::empty();
    let mut i: usize = 0;
    while i < n
        invariant
            n == frequencies@.len(),
            i <= n,
            counts == Seq::new(frequencies@.len(), |i: int| frequencies@[i].1 as nat),
            channels@.len() == i,
            in_order(channels@),
            place_of.len() == i,
            source_of.len() == i,
            forall|k: int|
                0 <= k < i ==> 0 <= #[trigger] place_of[k] < i && source_of[place_of[k]] == k,
            forall|c: int|
                0 <= c < i ==> {
                    let k = #[trigger] source_of[c];
                    &&& 0 <= k < i
                    &&& place_of[k] == c
                    &&& channels@[c].byte == frequencies@[k].0
                    &&& channels@[c].probability.numerator == frequencies@[k].1
                    &&& channels@[c].probability.denominator == total
                },
            forall|k: int, l: int|
                0 <= k < l < i ==> (#[trigger] frequencies@[k]).0 != (#[trigger] frequencies@[l]).0,
            sum(alphabet_of(channels@).counts) == sum_to(counts, i as nat),
        decreases n - i,
    {
        let (byte, count) = frequencies[i];
        match position_of_symbol(&channels, byte) {
            Some(c) => {
                proof {
                    let k = source_of[c as int];
                    assert(frequencies@[k].0 == frequencies@[i as int].0);
                }
                return Err(ConfigurationError);
            },
            None => {},
        }
        let channel = Channel {
            byte,
            probability: Probability { numerator: count, denominator: total },
        };
        let ghost before = channels@;
        let ghost old_place = place_of;
        let ghost old_source = source_of;
        let place = insert_channel(&mut channels, channel);
        proof {
            place_of =
            Seq::new(
                (i + 1) as nat,
                |k: int|
                    if k == i {
                        place as int
                    } else if old_place[k] >= place {
                        old_place[k] + 1
                    } else {
                        old_place[k]
                    },
            );
            source_of = old_source.insert(place as int, i as int);
            assert(alphabet_of(channels@).counts =~= alphabet_of(before).counts.insert(
                place as int,
                count as nat,
            ));
            lemma_sum_insert(alphabet_of(before).counts, place as int, count as nat);
            assert forall|k: int, l: int| 0 <= k < l < i + 1 implies (#[trigger] frequencies@[k]).0
                != (#[trigger] frequencies@[l]).0 by {
                if l == i {
                    assert(before[old_place[k]].byte != byte);
                }
            }
            assert forall|c: int| 0 <= c < i + 1 implies {
                let k = #[trigger] source_of[c];
                &&& 0 <= k < i + 1
                &&& place_of[k] == c
                &&& channels@[c].byte == frequencies@[k].0
                &&& channels@[c].probability.numerator == frequencies@[k].1
                &&& channels@[c].probability.denominator == total
            } by {
                if c < place {
                    assert(source_of[c] == old_source[c]);
                } else if c > place {
                    assert(source_of[c] == old_source[c - 1]);
                }
            }
            assert forall|k: int| 0 <= k < i + 1 implies 0 <= #[trigger] place_of[k] < i + 1
                && source_of[place_of[k]] == k by {
                if k < i {
                    assert(old_source[old_place[k]] == k);
                }
            }
        }
        i = i + 1;
    }
    let built = EncodingTable::from_channels(channels);
    proof {
        let alphabet = alphabet_of(channels@);
        assert forall|c: int| 0 <= c < n implies alphabet.counts[c] == frequencies@[source_of[c]].1
            && alphabet.symbols[c] == frequencies@[source_of[c]].0 by {}
        assert forall|k: int| 0 <= k < n implies alphabet.counts[place_of[k]] == counts[k]
            && alphabet.symbols[place_of[k]] == frequencies@[k].0 by {
            assert(source_of[place_of[k]] == k);
        }
        if valid_frequencies(frequencies@, total) {
            assert forall|c: int, d: int| 0 <= c < d < n implies alphabet.symbols[c]
                != alphabet.symbols[d] by {
                let k = source_of[c];
                let l = source_of[d];
                assert(place_of[k] == c && place_of[l] == d);
                if k < l {
                    assert(frequencies@[k].0 != frequencies@[l].0);
                } else {
                    assert(frequencies@[l].0 != frequencies@[k].0);
                }
            }
            assert forall|c: int, d: int| 0 <= c < d < n implies alphabet.precedes(c, d) by {
                assert(stands_before(channels@[c], channels@[d]));
            }
            assert forall|c: int| 0 <= c < n implies alphabet.counts[c] >= 1 by {
                assert(1 <= frequencies@[source_of[c]].1);
            }
            assert forall|c: int| 0 <= c < n implies (#[trigger] channels@[c]).probability.denominator
                == alphabet.total() by {
                assert(0 <= source_of[c] < n);
            }
            assert(valid_channels(channels@));
        }
        if valid_channels(channels@) {
            assert(0 <= source_of[0] < n);
            assert(channels@[0].probability.denominator == total);
            assert forall|k: int| 0 <= k < n implies 1 <= (#[trigger] frequencies@[k]).1
                <= total by {
                assert(alphabet.counts[place_of[k]] >= 1);
                lemma_sum_one_term(counts, n as nat, k);
            }
            assert(alphabet.counts[0] >= 1);
            lemma_sum_one_term(alphabet.counts, n as nat, 0);
        }
        if let Ok(table) = &built {
            table.lemma_wf();
            assert forall|k: int| 0 <= k < n implies table@.knows((#[trigger] frequencies@[k]).0)
                && table@.counts[table@.channel_of(frequencies@[k].0)] == frequencies@[k].1 by {
                table@.lemma_channel_of_symbol(place_of[k]);
            }
        }
    }
    built
}

/// The bytes in reverse order.
fn reversed(bytes: &Vec<u8>) -> (turned: Vec<u8>)
    ensures
        turned@ == bytes@.reverse(),
{
    let n: usize = bytes.len();
    let mut turned: Vec<u8> = Vec::new();
    let mut done: usize = 0;
    while done < n
        invariant
            n == bytes.len(),
            done <= n,
            turned.len() == done,
            forall|i: int| 0 <= i < done ==> turned@[i] == bytes@[n - 1 - i],
        decreases n - done,
    {
        turned.push(bytes[n - 1 - done]);
        done = done + 1;
    }
    proof {
        assert(turned@ =~= bytes@.reverse());
    }
    turned
}

/// Whether a table can be built from `channels`.
fn channels_are_valid(channels: &Vec<Channel>) -> (valid: bool)
    ensures
        valid == valid_channels(channels@),
{
    let n: usize = channels.len();
    if n == 0 {
        return false;
    }
    let total: usize = channels[0].probability.denominator;
    let ghost alphabet = alphabet_of(channels@);
    let mut seen: Vec<bool> = Vec::new();
    let mut b: usize = 0;
    while b < 256
        invariant
            b <= 256,
            seen.len() == b,
            forall|x: int| 0 <= x < b ==> !seen@[x],
        decreases 256 - b,
    {
        seen.push(false);
        b = b + 1;
    }
    let mut counted: usize = 0;
    let mut i: usize = 0;
    while i < n
        invariant
            i <= n,
            n == channels.len(),
            n >= 1,
            alphabet == alphabet_of(channels@),
            total == channels@[0].probability.denominator,
            seen.len() == 256,
            forall|x: int|
                0 <= x < 256 ==> (#[trigger] seen@[x] <==> exists|c: int|
                    0 <= c < i && #[trigger] alphabet.symbols[c] == x),
            counted == sum_to(alphabet.counts, i as nat),
            counted <= total,
            forall|c: int| 0 <= c < i ==> alphabet.counts[c] >= 1,
            forall|c: int|
                0 <= c < i ==> (#[trigger] channels@[c]).probability.denominator == total,
            forall|c: int, d: int| 0 <= c < d < i ==> alphabet.symbols[c] != alphabet.symbols[d],
            forall|c: int, d: int| 0 <= c < d < i ==> alphabet.precedes(c, d),
        decreases n - i,
    {
        let channel = &channels[i];
        let count: usize = channel.probability.numerator;
        assert(alphabet.counts[i as int] == count);
        assert(alphabet.symbols[i as int] == channel.byte);
        proof {
            lemma_sum_prefix(alphabet.counts, (i + 1) as nat, n as nat);
        }
        if count == 0 || channel.probability.denominator != total || count > total - counted {
            return false;
        }
        if seen[channel.byte as usize] {
            proof {
                let c = choose|c: int| 0 <= c < i && alphabet.symbols[c] == channel.byte;
                assert(alphabet.symbols[c] == alphabet.symbols[i as int]);
            }
            return false;
        }
        if i > 0 {
            let before = &channels[i - 1];
            assert(alphabet.counts[i - 1] == before.probability.numerator);
            assert(alphabet.symbols[i - 1] == before.byte);
            if !is_before(before, channel) {
                assert(!alphabet.precedes(i - 1, i as int));
                return false;
            }
            assert forall|c: int| 0 <= c < i implies alphabet.precedes(c, i as int) by {
                if c < i - 1 {
                    assert(alphabet.precedes(c, i - 1));
                }
            }
        }
        seen.set(channel.byte as usize, true);
        counted = counted + count;
        i = i + 1;
        proof {
            assert forall|x: int| 0 <= x < 256 implies (#[trigger] seen@[x] <==> exists|c: int|
                0 <= c < i && #[trigger] alphabet.symbols[c] == x) by {
                if x == channel.byte {
                    assert(alphabet.symbols[i - 1] == x);
                }
            }
        }
    }
    counted == total
}

} // verus!
