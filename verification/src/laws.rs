//! What holds of every table: the slots of a generation are parted among
//! the channels, steps forward and back undo each other, and decoding gives
//! back what was encoded.
use vstd::prelude::*;
use crate::alphabet::Alphabet;
use crate::encoding::{
    EncodingTable, InvalidStateError, UnknownSymbolError, alphabet_of, decode_outcome,
    encode_outcome, offsets_of,
};
use crate::key::Key;
use crate::spread::{
    owner, owns, sum, lemma_owner_exists, lemma_owner_unique, lemma_spread_below_total,
    lemma_spread_ordered,
};

verus! {

/// Whether `slot` is among the offsets that `held` lists.
pub open spec fn holds_slot(held: Seq<Seq<nat>>, slot: nat) -> bool {
    exists|c: int, j: int|
        0 <= c < held.len() && 0 <= j < held[c].len() && #[trigger] held[c][j] == slot
}

/// Whether the offsets that `held` lists for each channel part a generation
/// among the channels: every channel has as many offsets as its count says,
/// in increasing order; every slot below the sum of the counts, and no other
/// number, is an offset; and no slot is an offset twice.
pub open spec fn parts_generation(held: Seq<Seq<nat>>, counts: Seq<nat>) -> bool {
    &&& held.len() == counts.len()
    &&& forall|c: int| 0 <= c < held.len() ==> (#[trigger] held[c]).len() == counts[c]
    &&& forall|c: int, i: int, j: int|
        0 <= c < held.len() && 0 <= i < j < held[c].len() ==> #[trigger] held[c][i]
            < #[trigger] held[c][j]
    &&& forall|c: int, j: int|
        0 <= c < held.len() && 0 <= j < held[c].len() ==> #[trigger] held[c][j] < sum(counts)
    &&& forall|slot: nat| slot < sum(counts) ==> #[trigger] holds_slot(held, slot)
    &&& forall|c: int, i: int, d: int, j: int|
        0 <= c < held.len() && 0 <= i < held[c].len() && 0 <= d < held.len() && 0 <= j
            < held[d].len() && #[trigger] held[c][i] == #[trigger] held[d][j] ==> c == d && i
            == j
}

/// The offsets of a valid alphabet part the generation among its channels.
pub proof fn lemma_partition(alphabet: Alphabet)
    requires
        alphabet.valid(),
    ensures
        parts_generation(alphabet.offsets(), alphabet.counts),
{
    let counts = alphabet.counts;
    let held = alphabet.offsets();
    assert forall|c: int, i: int, j: int|
        0 <= c < held.len() && 0 <= i < j < held[c].len() implies #[trigger] held[c][i]
        < #[trigger] held[c][j] by {
        lemma_spread_ordered(counts, c, i as nat, c, j as nat);
    }
    assert forall|c: int, j: int|
        0 <= c < held.len() && 0 <= j < held[c].len() implies #[trigger] held[c][j] < sum(
        counts,
    ) by {
        lemma_spread_below_total(counts, c, j as nat);
    }
    assert forall|slot: nat| slot < sum(counts) implies #[trigger] holds_slot(held, slot) by {
        lemma_owner_exists(counts, slot);
        let (c, j) = owner(counts, slot);
        assert(held[c][j] == slot);
    }
    assert forall|c: int, i: int, d: int, j: int|
        0 <= c < held.len() && 0 <= i < held[c].len() && 0 <= d < held.len() && 0 <= j
            < held[d].len() && #[trigger] held[c][i] == #[trigger] held[d][j] implies c == d
        && i == j by {
        let slot = held[c][i];
        assert(owns(counts, c, i, slot));
        assert(owns(counts, d, j, slot));
        lemma_owner_unique(counts, c, i, slot);
        lemma_owner_unique(counts, d, j, slot);
    }
}

/// The pattern that a table holds parts the generation among the table's
/// channels, by their counts, and the generation is as large as the table says.
pub proof fn lemma_table_partition(table: EncodingTable)
    requires
        table.wf(),
    ensures
        parts_generation(
            offsets_of(table.pattern_list()),
            alphabet_of(table.channel_list()).counts,
        ),
        table.generation_size() == sum(alphabet_of(table.channel_list()).counts),
{
    table.lemma_wf();
    lemma_partition(table@);
}

/// A step forward is undone by the step back: for every state and every
/// channel of a table, the parent of the state reached is the state left,
/// and its last channel is the channel taken.
pub proof fn lemma_bijection(table: EncodingTable, state: nat, channel: int)
    requires
        table.wf(),
        0 <= channel < table@.size(),
    ensures
        table@.parent(table@.forward(state, channel)) == state,
        table@.last_channel(table@.forward(state, channel)) == channel,
{
    table.lemma_wf();
    table@.lemma_step_back(state, channel);
}

/// A step back is undone by the step forward on the last channel, for every
/// state.
pub proof fn lemma_bijection_back(table: EncodingTable, state: nat)
    requires
        table.wf(),
    ensures
        0 <= table@.last_channel(state) < table@.size(),
        table@.forward(table@.parent(state), table@.last_channel(state)) == state,
{
    table.lemma_wf();
    table@.lemma_step_again(state);
}

/// The empty sequence is encoded as the root, by every table.
pub proof fn lemma_encode_empty(table: EncodingTable, encoded: Result<Key, UnknownSymbolError>)
    requires
        encode_outcome(table@, Seq::empty(), encoded),
    ensures
        encoded matches Ok(key) && key@ == 0,
{
}

/// Appending symbols never leads to a smaller state.
pub proof fn lemma_encoded_grows(alphabet: Alphabet, bytes: Seq<u8>, more: Seq<u8>)
    requires
        alphabet.valid(),
        alphabet.knows_all(bytes + more),
    ensures
        alphabet.encoded(bytes) <= alphabet.encoded(bytes + more),
    decreases more.len(),
{
    if more.len() == 0 {
        assert(bytes + more =~= bytes);
    } else {
        let all = bytes + more;
        assert(all.drop_last() =~= bytes + more.drop_last());
        assert forall|i: int| 0 <= i < all.drop_last().len() implies alphabet.knows(
            all.drop_last()[i],
        ) by {
            assert(all.drop_last()[i] == all[i]);
        }
        lemma_encoded_grows(alphabet, bytes, more.drop_last());
        assert(alphabet.knows(all[all.len() - 1]));
        alphabet.lemma_channel_of(all.last());
        alphabet.lemma_forward_grows(
            alphabet.encoded(all.drop_last()),
            alphabet.channel_of(all.last()),
        );
    }
}

/// A leading symbol of channel 0 leaves no trace: from the root, the step on
/// channel 0 leads to the root again.
pub proof fn lemma_leading_symbol_lost(alphabet: Alphabet, bytes: Seq<u8>)
    requires
        alphabet.valid(),
    ensures
        alphabet.encoded(seq![alphabet.symbols[0]] + bytes) == alphabet.encoded(bytes),
    decreases bytes.len(),
{
    let longer = seq![alphabet.symbols[0]] + bytes;
    if bytes.len() == 0 {
        assert(longer.drop_last() =~= Seq::<u8>::empty());
        assert(alphabet.encoded(longer.drop_last()) == 0);
        alphabet.lemma_channel_of_symbol(0);
        alphabet.lemma_forward_root(0, 0);
    } else {
        assert(longer.drop_last() =~= seq![alphabet.symbols[0]] + bytes.drop_last());
        lemma_leading_symbol_lost(alphabet, bytes.drop_last());
    }
}

/// Decoding the state of a sequence gives the sequence back, where the
/// sequence is not empty, holds symbols of the alphabet only, and does not
/// begin with the symbol of channel 0.
pub proof fn lemma_decoded_encoded(alphabet: Alphabet, bytes: Seq<u8>)
    requires
        alphabet.valid(),
        bytes.len() > 0,
        alphabet.knows_all(bytes),
        bytes[0] != alphabet.symbols[0],
    ensures
        alphabet.decodable(),
        alphabet.encoded(bytes) != 0,
        alphabet.decoded(alphabet.encoded(bytes)) == bytes,
    decreases bytes.len(),
{
    let first = alphabet.channel_of(bytes[0]);
    assert(alphabet.knows(bytes[0]));
    alphabet.lemma_channel_of(bytes[0]);
    assert(first != 0);
    let front = bytes.drop_last();
    let channel = alphabet.channel_of(bytes.last());
    assert(alphabet.knows(bytes[bytes.len() - 1]));
    alphabet.lemma_channel_of(bytes.last());
    let before = alphabet.encoded(front);
    let state = alphabet.forward(before, channel);
    if bytes.len() > 1 {
        assert forall|i: int| 0 <= i < front.len() implies alphabet.knows(front[i]) by {
            assert(front[i] == bytes[i]);
        }
        lemma_decoded_encoded(alphabet, front);
    }
    alphabet.lemma_forward_root(before, channel);
    alphabet.lemma_step_back(before, channel);
    alphabet.lemma_parent_below(state);
    assert(alphabet.decoded(state) == alphabet.decoded(before).push(alphabet.symbols[channel]));
    assert(alphabet.decoded(before).push(bytes.last()) =~= bytes);
}

/// Encoding what a state decodes to gives the state back, where the alphabet
/// has two symbols or more.
pub proof fn lemma_encoded_decoded(alphabet: Alphabet, state: nat)
    requires
        alphabet.valid(),
        alphabet.decodable(),
    ensures
        alphabet.knows_all(alphabet.decoded(state)),
        alphabet.encoded(alphabet.decoded(state)) == state,
    decreases state,
{
    if state != 0 {
        let parent = alphabet.parent(state);
        let channel = alphabet.last_channel(state);
        alphabet.lemma_parent_below(state);
        alphabet.lemma_step_again(state);
        alphabet.lemma_channel_of_symbol(channel);
        lemma_encoded_decoded(alphabet, parent);
        let bytes = alphabet.decoded(state);
        assert(bytes == alphabet.decoded(parent).push(alphabet.symbols[channel]));
        assert(bytes.drop_last() =~= alphabet.decoded(parent));
        assert forall|i: int| 0 <= i < bytes.len() implies alphabet.knows(bytes[i]) by {
            if i < bytes.len() - 1 {
                assert(bytes[i] == alphabet.decoded(parent)[i]);
            }
        }
    }
}

/// Round trip: where `encode` was given a sequence that is not empty, holds
/// symbols of the table's alphabet only and does not begin with the symbol of
/// channel 0, it returned a key, and `decode` of that key returns the sequence.
pub proof fn lemma_round_trip(
    table: EncodingTable,
    bytes: Seq<u8>,
    encoded: Result<Key, UnknownSymbolError>,
    decoded: Result<Vec<u8>, InvalidStateError>,
)
    requires
        table.wf(),
        bytes.len() > 0,
        table@.knows_all(bytes),
        bytes[0] != table@.symbols[0],
        encode_outcome(table@, bytes, encoded),
        encoded matches Ok(key) ==> decode_outcome(table@, key@, decoded),
    ensures
        encoded is Ok,
        decoded matches Ok(recovered) && recovered@ == bytes,
{
    table.lemma_wf();
    lemma_decoded_encoded(table@, bytes);
    if encoded is Err {
        let position = encoded->Err_0.position as int;
        assert(table@.knows(bytes[position]));
    }
}

/// Round trip from a state: where `decode` returned the sequence of a state,
/// `encode` of that sequence returns the state.
pub proof fn lemma_round_trip_back(
    table: EncodingTable,
    state: nat,
    decoded: Result<Vec<u8>, InvalidStateError>,
    encoded: Result<Key, UnknownSymbolError>,
)
    requires
        table.wf(),
        decode_outcome(table@, state, decoded),
        decoded matches Ok(bytes) ==> encode_outcome(table@, bytes@, encoded),
    ensures
        decoded matches Ok(_) ==> encoded matches Ok(key) && key@ == state,
{
    table.lemma_wf();
    if let Ok(bytes) = decoded {
        if table@.decodable() {
            lemma_encoded_decoded(table@, state);
        }
        if let Err(error) = encoded {
            assert(table@.knows(bytes@[error.position as int]));
        }
    }
}

/// Encoding is a function: two runs of `encode` on one table and one input
/// end alike, with the same state or with the same error.
pub proof fn lemma_encode_deterministic(
    table: EncodingTable,
    bytes: Seq<u8>,
    first: Result<Key, UnknownSymbolError>,
    second: Result<Key, UnknownSymbolError>,
)
    requires
        encode_outcome(table@, bytes, first),
        encode_outcome(table@, bytes, second),
    ensures
        first matches Ok(key) ==> second matches Ok(other) && key@ == other@,
        first matches Err(error) ==> second == Err::<Key, UnknownSymbolError>(error),
{
    match (first, second) {
        (Ok(_), Err(found)) => {
            assert(table@.knows(bytes[found.position as int]));
        },
        (Err(error), Ok(_)) => {
            assert(table@.knows(bytes[error.position as int]));
        },
        (Err(error), Err(found)) => {
            if error.position < found.position {
                assert(bytes.take(found.position as int)[error.position as int]
                    == bytes[error.position as int]);
            } else if found.position < error.position {
                assert(bytes.take(error.position as int)[found.position as int]
                    == bytes[found.position as int]);
            }
        },
        _ => {},
    }
}

/// Decoding is a function: two runs of `decode` on one table and one state
/// end alike, with the same sequence or both with an error.
pub proof fn lemma_decode_deterministic(
    table: EncodingTable,
    state: nat,
    first: Result<Vec<u8>, InvalidStateError>,
    second: Result<Vec<u8>, InvalidStateError>,
)
    requires
        decode_outcome(table@, state, first),
        decode_outcome(table@, state, second),
    ensures
        first matches Ok(bytes) ==> second matches Ok(other) && bytes@ == other@,
        first is Err ==> second is Err,
{
}

} // verus!
