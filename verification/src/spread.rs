//! The spread of a generation's slots over the channels, as mathematics.
//!
//! The slots of one generation are dealt out in rounds. In each round every
//! channel that still wants slots receives the next free one, in channel
//! order. Slot number `round` of channel `channel` therefore comes after
//! everything that was dealt out in earlier rounds, and after what the
//! channels before it received in the same round.
use vstd::prelude::*;

verus! {

/// The sum of the first `upto` entries of `s`.
pub open spec fn sum_to(s: Seq<nat>, upto: nat) -> nat
    decreases upto,
{
    if upto == 0 {
        0
    } else {
        sum_to(s, (upto - 1) as nat) + s[upto - 1]
    }
}

/// The sum of all entries of `s`.
pub open spec fn sum(s: Seq<nat>) -> nat {
    sum_to(s, s.len())
}

/// The smaller of two numbers.
pub open spec fn smaller(a: nat, b: nat) -> nat {
    if a <= b {
        a
    } else {
        b
    }
}

/// How many slots each channel holds at the moment when the deal reaches
/// `channel` in round `round`: the channels before it have been served in
/// this round, the others not yet.
pub open spec fn level(counts: Seq<nat>, channel: int, round: nat) -> Seq<nat> {
    Seq::new(
        counts.len(),
        |d: int|
            smaller(
                counts[d],
                if d < channel {
                    round + 1
                } else {
                    round
                },
            ),
    )
}

/// The offset of slot number `round` of `channel`: the number of slots dealt
/// out before it.
pub open spec fn spread_offset(counts: Seq<nat>, channel: int, round: nat) -> nat {
    sum(level(counts, channel, round))
}

/// Whether `slot` is slot number `position` of `channel`.
pub open spec fn owns(counts: Seq<nat>, channel: int, position: int, slot: nat) -> bool {
    &&& 0 <= channel < counts.len()
    &&& 0 <= position < counts[channel]
    &&& spread_offset(counts, channel, position as nat) == slot
}

/// The channel that holds `slot`, and the position of the slot in that channel.
pub open spec fn owner(counts: Seq<nat>, slot: nat) -> (int, int) {
    choose|c: int, j: int| owns(counts, c, j, slot)
}

/// The offsets of every channel, in the order in which the channel receives them.
pub open spec fn spread(counts: Seq<nat>) -> Seq<Seq<nat>> {
    Seq::new(
        counts.len(),
        |c: int| Seq::new(counts[c], |j: int| spread_offset(counts, c, j as nat)),
    )
}

/// Sums of sequences that agree on the first `upto` entries are equal.
pub proof fn lemma_sum_agree(a: Seq<nat>, b: Seq<nat>, upto: nat)
    requires
        forall|i: int| 0 <= i < upto ==> a[i] == b[i],
    ensures
        sum_to(a, upto) == sum_to(b, upto),
    decreases upto,
{
    if upto > 0 {
        lemma_sum_agree(a, b, (upto - 1) as nat);
    }
}

/// A sum grows with its entries.
pub proof fn lemma_sum_le(a: Seq<nat>, b: Seq<nat>, upto: nat)
    requires
        forall|i: int| 0 <= i < upto ==> a[i] <= b[i],
    ensures
        sum_to(a, upto) <= sum_to(b, upto),
    decreases upto,
{
    if upto > 0 {
        lemma_sum_le(a, b, (upto - 1) as nat);
    }
}

/// A sum grows strictly where one entry does and none shrinks.
pub proof fn lemma_sum_lt(a: Seq<nat>, b: Seq<nat>, upto: nat, at: int)
    requires
        forall|i: int| 0 <= i < upto ==> a[i] <= b[i],
        0 <= at < upto,
        a[at] < b[at],
    ensures
        sum_to(a, upto) < sum_to(b, upto),
    decreases upto,
{
    if at == upto - 1 {
        lemma_sum_le(a, b, (upto - 1) as nat);
    } else {
        lemma_sum_lt(a, b, (upto - 1) as nat, at);
    }
}

/// A sum is at least the sum of a shorter prefix.
pub proof fn lemma_sum_prefix(s: Seq<nat>, shorter: nat, upto: nat)
    requires
        shorter <= upto,
    ensures
        sum_to(s, shorter) <= sum_to(s, upto),
    decreases upto,
{
    if shorter < upto {
        lemma_sum_prefix(s, shorter, (upto - 1) as nat);
    }
}

/// A sum is at least any one of its entries.
pub proof fn lemma_sum_one_term(s: Seq<nat>, upto: nat, at: int)
    requires
        0 <= at < upto,
    ensures
        sum_to(s, upto) >= s[at],
    decreases upto,
{
    if at < upto - 1 {
        lemma_sum_one_term(s, (upto - 1) as nat, at);
    }
}

/// A sum is at least any two of its entries together.
pub proof fn lemma_sum_two_terms(s: Seq<nat>, upto: nat, first: int, second: int)
    requires
        0 <= first < second < upto,
    ensures
        sum_to(s, upto) >= s[first] + s[second],
    decreases upto,
{
    if second == upto - 1 {
        lemma_sum_one_term(s, (upto - 1) as nat, first);
    } else {
        lemma_sum_two_terms(s, (upto - 1) as nat, first, second);
    }
}

/// Raising one entry by one raises the sum by one.
pub proof fn lemma_sum_raise(a: Seq<nat>, b: Seq<nat>, upto: nat, at: int)
    requires
        0 <= at < upto,
        b[at] == a[at] + 1,
        forall|i: int| 0 <= i < upto && i != at ==> a[i] == b[i],
    ensures
        sum_to(b, upto) == sum_to(a, upto) + 1,
    decreases upto,
{
    if at == upto - 1 {
        lemma_sum_agree(a, b, (upto - 1) as nat);
    } else {
        lemma_sum_raise(a, b, (upto - 1) as nat, at);
    }
}

/// Putting one more entry into a sequence raises the sum by that entry.
pub proof fn lemma_sum_insert(s: Seq<nat>, at: int, entry: nat)
    requires
        0 <= at <= s.len(),
    ensures
        sum(s.insert(at, entry)) == sum(s) + entry,
    decreases s.len(),
{
    let longer = s.insert(at, entry);
    if at == s.len() {
        lemma_sum_agree(longer, s, s.len());
    } else {
        let front = s.drop_last();
        lemma_sum_insert(front, at, entry);
        lemma_sum_agree(longer, front.insert(at, entry), s.len());
        lemma_sum_agree(front, s, front.len());
    }
}

/// A sum of zeros is zero.
pub proof fn lemma_sum_all_zero(s: Seq<nat>, upto: nat)
    requires
        forall|i: int| 0 <= i < upto ==> s[i] == 0,
    ensures
        sum_to(s, upto) == 0,
    decreases upto,
{
    if upto > 0 {
        lemma_sum_all_zero(s, (upto - 1) as nat);
    }
}

/// Slot 0 of channel 0 is offset 0.
pub proof fn lemma_spread_origin(counts: Seq<nat>)
    ensures
        spread_offset(counts, 0, 0) == 0,
{
    lemma_sum_all_zero(level(counts, 0, 0), counts.len());
}

/// Every offset lies below the sum of the counts.
pub proof fn lemma_spread_below_total(counts: Seq<nat>, channel: int, round: nat)
    requires
        0 <= channel < counts.len(),
        round < counts[channel],
    ensures
        spread_offset(counts, channel, round) < sum(counts),
{
    lemma_sum_lt(level(counts, channel, round), counts, counts.len(), channel);
}

/// Two slots that differ have offsets that differ: of two slots, the one in
/// the earlier round, or in the same round and of the earlier channel, has
/// the smaller offset.
pub proof fn lemma_spread_ordered(
    counts: Seq<nat>,
    channel: int,
    round: nat,
    other: int,
    later: nat,
)
    requires
        0 <= channel < counts.len(),
        0 <= other < counts.len(),
        round < counts[channel],
        later < counts[other],
        round < later || (round == later && channel < other),
    ensures
        spread_offset(counts, channel, round) < spread_offset(counts, other, later),
{
    lemma_sum_lt(
        level(counts, channel, round),
        level(counts, other, later),
        counts.len(),
        channel,
    );
}

/// With two channels or more, every slot but slot 0 of channel 0 has an
/// offset above its own number.
pub proof fn lemma_spread_above_round(counts: Seq<nat>, channel: int, round: nat)
    requires
        counts.len() >= 2,
        forall|d: int| 0 <= d < counts.len() ==> counts[d] >= 1,
        0 <= channel < counts.len(),
        round < counts[channel],
        channel != 0 || round != 0,
    ensures
        spread_offset(counts, channel, round) > round,
{
    let held = level(counts, channel, round);
    let other: int = if channel == 0 {
        1
    } else {
        0
    };
    assert(held[channel] == round);
    assert(held[other] >= 1);
    if other < channel {
        lemma_sum_two_terms(held, counts.len(), other, channel);
    } else {
        lemma_sum_two_terms(held, counts.len(), channel, other);
    }
}

/// Every number below the level that the deal has reached is the offset of
/// some slot.
proof fn lemma_covered(counts: Seq<nat>, channel: int, round: nat, slot: nat)
    requires
        0 <= channel <= counts.len(),
        slot < sum(level(counts, channel, round)),
    ensures
        exists|c: int, j: int| owns(counts, c, j, slot),
    decreases round, channel,
{
    let reached = level(counts, channel, round);
    if channel > 0 {
        let before = level(counts, channel - 1, round);
        if slot < sum(before) {
            lemma_covered(counts, channel - 1, round, slot);
        } else if counts[channel - 1] > round {
            lemma_sum_raise(before, reached, counts.len(), channel - 1);
            assert(owns(counts, channel - 1, round as int, slot));
        } else {
            lemma_sum_agree(before, reached, counts.len());
        }
    } else if round == 0 {
        lemma_spread_origin(counts);
    } else {
        assert(reached =~= level(counts, counts.len() as int, (round - 1) as nat));
        lemma_covered(counts, counts.len() as int, (round - 1) as nat, slot);
    }
}

/// Every slot of a generation belongs to a channel.
pub proof fn lemma_owner_exists(counts: Seq<nat>, slot: nat)
    requires
        slot < sum(counts),
    ensures
        owns(counts, owner(counts, slot).0, owner(counts, slot).1, slot),
{
    let enough = sum(counts);
    assert forall|d: int| 0 <= d < counts.len() implies counts[d] <= enough by {
        lemma_sum_one_term(counts, counts.len(), d);
    }
    assert(level(counts, 0, enough) =~= counts);
    lemma_covered(counts, 0, enough, slot);
}

/// A slot belongs to one channel only, at one position.
pub proof fn lemma_owner_unique(counts: Seq<nat>, channel: int, position: int, slot: nat)
    requires
        owns(counts, channel, position, slot),
    ensures
        owner(counts, slot) == (channel, position),
{
    let (c, j) = owner(counts, slot);
    assert(owns(counts, c, j, slot));
    if j < position || (j == position && c < channel) {
        lemma_spread_ordered(counts, c, j as nat, channel, position as nat);
    } else if position < j || (position == j && channel < c) {
        lemma_spread_ordered(counts, channel, position as nat, c, j as nat);
    }
}

} // verus!
