//! The mathematical model of the coder: an alphabet with its counts, the
//! states, and the steps between them.
//!
//! A state is a natural number. The states are cut into generations of
//! `total` consecutive states each, and the slots of a generation are spread
//! over the channels. One step forward on a channel leads from a state to
//! the state that stands, in the generation given by the quotient of the
//! state by the channel's count, at the slot given by the remainder.
use vstd::prelude::*;
use vstd::arithmetic::div_mod::lemma_fundamental_div_mod_converse;
use vstd::arithmetic::div_mod::lemma_fundamental_div_mod;
use vstd::arithmetic::div_mod::lemma_mod_bound;
use vstd::arithmetic::div_mod::lemma_div_pos_is_pos;
use crate::spread::{
    sum, level, spread, spread_offset, owns, owner, lemma_sum_one_term, lemma_sum_two_terms,
    lemma_owner_exists, lemma_owner_unique, lemma_spread_below_total, lemma_spread_origin,
    lemma_spread_above_round,
};

verus! {

/// The symbols of a distribution, most frequent first, each with the number
/// of times it occurs. A channel is a position in this order.
pub struct Alphabet {
    pub symbols: Seq<u8>,
    pub counts: Seq<nat>,
}

impl Alphabet {
    /// The number of channels.
    pub open spec fn size(self) -> nat {
        self.symbols.len()
    }

    /// The size of a generation: the sum of all counts.
    pub open spec fn total(self) -> nat {
        sum(self.counts)
    }

    /// Whether channel `c` stands before channel `d` in the order: it has the
    /// higher count, or the same count and the smaller symbol.
    pub open spec fn precedes(self, c: int, d: int) -> bool {
        self.counts[c] > self.counts[d] || (self.counts[c] == self.counts[d] && self.symbols[c]
            < self.symbols[d])
    }

    /// There is a channel, every channel has a symbol of its own and occurs
    /// at least once, and the channels are in order.
    pub open spec fn valid(self) -> bool {
        &&& self.symbols.len() == self.counts.len()
        &&& self.symbols.len() >= 1
        &&& forall|c: int| 0 <= c < self.counts.len() ==> self.counts[c] >= 1
        &&& forall|c: int, d: int|
            0 <= c < d < self.symbols.len() ==> self.symbols[c] != self.symbols[d]
        &&& forall|c: int, d: int| 0 <= c < d < self.symbols.len() ==> self.precedes(c, d)
    }

    /// Whether `symbol` belongs to the alphabet.
    pub open spec fn knows(self, symbol: u8) -> bool {
        self.symbols.contains(symbol)
    }

    /// Whether every symbol of `bytes` belongs to the alphabet.
    pub open spec fn knows_all(self, bytes: Seq<u8>) -> bool {
        forall|i: int| 0 <= i < bytes.len() ==> self.knows(bytes[i])
    }

    /// The channel of `symbol`.
    pub open spec fn channel_of(self, symbol: u8) -> int {
        self.symbols.index_of(symbol)
    }

    /// The offsets of every channel within a generation.
    pub open spec fn offsets(self) -> Seq<Seq<nat>> {
        spread(self.counts)
    }

    /// The offset of slot number `position` of `channel`.
    pub open spec fn offset(self, channel: int, position: int) -> nat {
        spread_offset(self.counts, channel, position as nat)
    }

    /// The state reached from `state` by appending the symbol of `channel`.
    pub open spec fn forward(self, state: nat, channel: int) -> nat {
        let count = self.counts[channel];
        (state / count) * self.total() + self.offset(channel, (state % count) as int)
    }

    /// The channel whose symbol was appended last to reach `state`: the
    /// channel that holds the slot at which `state` stands in its generation.
    pub open spec fn last_channel(self, state: nat) -> int {
        owner(self.counts, state % self.total()).0
    }

    /// The state from which `state` was reached.
    pub open spec fn parent(self, state: nat) -> nat {
        let (channel, position) = owner(self.counts, state % self.total());
        ((state / self.total()) * self.counts[channel] + position) as nat
    }

    /// The state reached from the root by appending the symbols of `bytes`
    /// in order.
    pub open spec fn encoded(self, bytes: Seq<u8>) -> nat
        decreases bytes.len(),
    {
        if bytes.len() == 0 {
            0
        } else {
            self.forward(self.encoded(bytes.drop_last()), self.channel_of(bytes.last()))
        }
    }

    /// The symbols met on the way from `state` back to the root, in the
    /// order in which they were appended.
    pub open spec fn decoded(self, state: nat) -> Seq<u8>
        decreases state,
    {
        if state != 0 && self.parent(state) < state {
            self.decoded(self.parent(state)).push(self.symbols[self.last_channel(state)])
        } else {
            Seq::empty()
        }
    }

    /// Whether every state but the root has a parent below it, so that the
    /// way back from any state ends at the root.
    pub open spec fn decodable(self) -> bool {
        self.size() >= 2
    }

    /// A symbol of the alphabet has a channel, and the channel has that symbol.
    pub proof fn lemma_channel_of(self, symbol: u8)
        requires
            self.valid(),
            self.knows(symbol),
        ensures
            0 <= self.channel_of(symbol) < self.size(),
            self.symbols[self.channel_of(symbol)] == symbol,
    {
    }

    /// The symbol of a channel has that channel and no other.
    pub proof fn lemma_channel_of_symbol(self, channel: int)
        requires
            self.valid(),
            0 <= channel < self.size(),
        ensures
            self.knows(self.symbols[channel]),
            self.channel_of(self.symbols[channel]) == channel,
    {
        let found = self.channel_of(self.symbols[channel]);
        assert(self.symbols[channel] == self.symbols[channel]);
        assert(0 <= found < self.size() && self.symbols[found] == self.symbols[channel]);
        if found < channel {
            assert(self.symbols[found] != self.symbols[channel]);
        } else if channel < found {
            assert(self.symbols[channel] != self.symbols[found]);
        }
    }

    /// A generation is not empty, and no channel fills it alone unless it is
    /// the only one.
    pub proof fn lemma_total(self, channel: int)
        requires
            self.valid(),
            0 <= channel < self.size(),
        ensures
            1 <= self.counts[channel] <= self.total(),
            self.size() >= 2 ==> self.counts[channel] < self.total(),
    {
        lemma_sum_one_term(self.counts, self.counts.len(), channel);
        if self.size() >= 2 {
            if channel == 0 {
                lemma_sum_two_terms(self.counts, self.counts.len(), 0, 1);
            } else {
                lemma_sum_two_terms(self.counts, self.counts.len(), 0, channel);
            }
        }
    }

    /// The slot at which a state stands belongs to one channel, at one
    /// position below the channel's count.
    pub proof fn lemma_owner(self, state: nat)
        requires
            self.valid(),
        ensures
            owns(
                self.counts,
                owner(self.counts, state % self.total()).0,
                owner(self.counts, state % self.total()).1,
                state % self.total(),
            ),
    {
        self.lemma_total(0);
        lemma_mod_bound(state as int, self.total() as int);
        lemma_owner_exists(self.counts, state % self.total());
    }

    /// The generation and the slot of the state that a step forward reaches.
    pub proof fn lemma_forward_parts(self, state: nat, channel: int)
        requires
            self.valid(),
            0 <= channel < self.size(),
        ensures
            self.forward(state, channel) / self.total() == state / self.counts[channel],
            self.forward(state, channel) % self.total() == self.offset(
                channel,
                (state % self.counts[channel]) as int,
            ),
            owns(
                self.counts,
                channel,
                (state % self.counts[channel]) as int,
                self.forward(state, channel) % self.total(),
            ),
    {
        self.lemma_total(channel);
        let count = self.counts[channel];
        let position = state % count;
        lemma_mod_bound(state as int, count as int);
        lemma_spread_below_total(self.counts, channel, position);
        lemma_fundamental_div_mod_converse(
            self.forward(state, channel) as int,
            self.total() as int,
            (state / count) as int,
            self.offset(channel, position as int) as int,
        );
    }

    /// A step forward is undone by the step back: the parent of the state
    /// reached is the state left, and the last channel is the channel taken.
    pub proof fn lemma_step_back(self, state: nat, channel: int)
        requires
            self.valid(),
            0 <= channel < self.size(),
        ensures
            self.parent(self.forward(state, channel)) == state,
            self.last_channel(self.forward(state, channel)) == channel,
    {
        let count = self.counts[channel];
        let next = self.forward(state, channel);
        self.lemma_total(channel);
        self.lemma_forward_parts(state, channel);
        lemma_owner_unique(self.counts, channel, (state % count) as int, next % self.total());
        lemma_fundamental_div_mod(state as int, count as int);
        assert((state / count) * count == count * (state / count)) by (nonlinear_arith);
    }

    /// A step back is undone by the step forward on the last channel.
    pub proof fn lemma_step_again(self, state: nat)
        requires
            self.valid(),
        ensures
            0 <= self.last_channel(state) < self.size(),
            self.forward(self.parent(state), self.last_channel(state)) == state,
    {
        self.lemma_owner(state);
        let total = self.total();
        let (channel, position) = owner(self.counts, state % total);
        let count = self.counts[channel];
        let generation = state / total;
        self.lemma_total(channel);
        lemma_fundamental_div_mod_converse(
            self.parent(state) as int,
            count as int,
            generation as int,
            position,
        );
        lemma_fundamental_div_mod(state as int, total as int);
        assert(generation * total == total * generation) by (nonlinear_arith);
    }

    /// Only the step from the root on channel 0 leads to the root.
    pub proof fn lemma_forward_root(self, state: nat, channel: int)
        requires
            self.valid(),
            0 <= channel < self.size(),
        ensures
            self.forward(state, channel) == 0 <==> (state == 0 && channel == 0),
    {
        let count = self.counts[channel];
        let total = self.total();
        self.lemma_total(channel);
        self.lemma_total(0);
        lemma_spread_origin(self.counts);
        if state == 0 && channel == 0 {
            assert(0nat / count == 0 && 0nat % count == 0) by (nonlinear_arith)
                requires
                    count >= 1,
            ;
            assert(0 * total == 0) by (nonlinear_arith);
        }
        if self.forward(state, channel) == 0 {
            self.lemma_step_back(state, channel);
            assert(0nat % total == 0 && 0nat / total == 0) by (nonlinear_arith)
                requires
                    total >= 1,
            ;
            lemma_owner_unique(self.counts, 0, 0, 0);
            assert(0 * self.counts[0] == 0) by (nonlinear_arith);
        }
    }

    /// A step forward never leads to a smaller state.
    pub proof fn lemma_forward_grows(self, state: nat, channel: int)
        requires
            self.valid(),
            0 <= channel < self.size(),
        ensures
            self.forward(state, channel) >= state,
    {
        let count = self.counts[channel];
        let total = self.total();
        let position = state % count;
        let generation = state / count;
        self.lemma_total(channel);
        lemma_mod_bound(state as int, count as int);
        lemma_fundamental_div_mod(state as int, count as int);
        self.lemma_offset_at_least(channel, position as int);
        assert(generation * total >= count * generation) by (nonlinear_arith)
            requires
                total >= count,
                generation >= 0,
        ;
    }

    /// The offset of a slot is at least the number of the slot.
    pub proof fn lemma_offset_at_least(self, channel: int, position: int)
        requires
            self.valid(),
            0 <= channel < self.size(),
            0 <= position < self.counts[channel],
        ensures
            self.offset(channel, position) >= position,
    {
        let held = level(self.counts, channel, position as nat);
        assert(held[channel] == position);
        lemma_sum_one_term(held, self.counts.len(), channel);
    }

    /// With two channels or more, the parent of every state but the root
    /// lies below the state.
    pub proof fn lemma_parent_below(self, state: nat)
        requires
            self.valid(),
            self.decodable(),
            state != 0,
        ensures
            self.parent(state) < state,
    {
        self.lemma_owner(state);
        let total = self.total();
        let (channel, position) = owner(self.counts, state % total);
        let count = self.counts[channel];
        let generation = state / total;
        self.lemma_total(channel);
        lemma_fundamental_div_mod(state as int, total as int);
        lemma_div_pos_is_pos(state as int, total as int);
        if position == 0 && channel == 0 {
            lemma_spread_origin(self.counts);
            assert(generation >= 1) by (nonlinear_arith)
                requires
                    state == total * generation,
                    state != 0,
            ;
            assert(generation * count < total * generation) by (nonlinear_arith)
                requires
                    count < total,
                    generation >= 1,
            ;
        } else {
            lemma_spread_above_round(self.counts, channel, position as nat);
            assert(generation * count <= total * generation) by (nonlinear_arith)
                requires
                    count < total,
                    generation >= 0,
            ;
        }
    }
}

} // verus!
