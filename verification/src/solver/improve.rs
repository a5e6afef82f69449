//! Seeded reconstruction neighborhoods over construction plans.
use vstd::prelude::*;

use crate::solver::constructive::{canonical_order, plan_covers, ConstructionPlan};
use crate::validate::{all_positions, ItemId, PackingInstance};

verus! {

broadcast use {vstd::seq_lib::group_to_multiset_ensures, vstd::multiset::group_multiset_axioms};

/// State increment of the SplitMix64 generator.
pub const SPLITMIX_GAMMA: u64 = 0x9e37_79b9_7f4a_7c15;

/// Generator state after one step: the state plus the increment, wrapping.
pub open spec fn splitmix_advance(state: u64) -> u64 {
    (state + 0x9e37_79b9_7f4a_7c15u64) as u64
}

/// SplitMix64 output for a state: two xor-shift-multiply rounds and a final
/// xor-shift, with wrapping multiplication.
pub open spec fn splitmix_mix(z: u64) -> u64 {
    let a = ((z ^ (z >> 30u64)) * 0xbf58_476d_1ce4_e5b9u64) as u64;
    let b = ((a ^ (a >> 27u64)) * 0x94d0_49bb_1331_11ebu64) as u64;
    b ^ (b >> 31u64)
}

/// The state whose output is `v` (the inverse of `splitmix_mix`).
spec fn splitmix_unmix(v: u64) -> u64 {
    let b = v ^ (v >> 31u64) ^ (v >> 62u64);
    let a1 = (b * 0x319642b2d24d8ec3u64) as u64;
    let a = a1 ^ (a1 >> 27u64) ^ (a1 >> 54u64);
    let z1 = (a * 0x96de1b173f119089u64) as u64;
    z1 ^ (z1 >> 30u64) ^ (z1 >> 60u64)
}

/// Every output value is produced by some state.
proof fn lemma_unmix(v: u64)
    ensures
        splitmix_mix(splitmix_unmix(v)) == v,
{
    let b = v ^ (v >> 31u64) ^ (v >> 62u64);
    let a1 = (b * 0x319642b2d24d8ec3u64) as u64;
    let a = a1 ^ (a1 >> 27u64) ^ (a1 >> 54u64);
    let z1 = (a * 0x96de1b173f119089u64) as u64;
    let z = z1 ^ (z1 >> 30u64) ^ (z1 >> 60u64);
    assert(z ^ (z >> 30u64) == z1) by (bit_vector)
        requires
            z == z1 ^ (z1 >> 30u64) ^ (z1 >> 60u64),
    ;
    assert((z1 * 0xbf58_476d_1ce4_e5b9u64) as u64 == a) by (bit_vector)
        requires
            z1 == (a * 0x96de1b173f119089u64) as u64,
    ;
    assert(a ^ (a >> 27u64) == a1) by (bit_vector)
        requires
            a == a1 ^ (a1 >> 27u64) ^ (a1 >> 54u64),
    ;
    assert((a1 * 0x94d0_49bb_1331_11ebu64) as u64 == b) by (bit_vector)
        requires
            a1 == (b * 0x319642b2d24d8ec3u64) as u64,
    ;
    assert(b ^ (b >> 31u64) == v) by (bit_vector)
        requires
            b == v ^ (v >> 31u64) ^ (v >> 62u64),
    ;
}

/// Number of generator steps from `state` to `target`.
spec fn steps_between(state: u64, target: u64) -> u64 {
    (((target - state) as u64) * 0xf1de83e19937733du64) as u64
}

/// One generator step brings any other state one step closer to `target`.
proof fn lemma_steps_between(state: u64, target: u64)
    requires
        state != target,
    ensures
        steps_between(state, target) > 0,
        steps_between(splitmix_advance(state), target) + 1 == steps_between(state, target),
{
    let next = splitmix_advance(state);
    let d = (target - state) as u64;
    let e = steps_between(state, target);
    assert(e == ((d * 0xf1de83e19937733du64) as u64));
    assert(d == (e * 0x9e37_79b9_7f4a_7c15u64) as u64) by (bit_vector)
        requires
            e == ((d * 0xf1de83e19937733du64) as u64),
    ;
    assert(d != 0) by (bit_vector)
        requires
            d == (target - state) as u64,
            state != target,
    ;
    assert(e != 0);
    let f = (e - 1) as u64;
    assert((target - next) as u64 == (d - 0x9e37_79b9_7f4a_7c15u64) as u64) by (bit_vector)
        requires
            d == (target - state) as u64,
            next == (state + 0x9e37_79b9_7f4a_7c15u64) as u64,
    ;
    assert((d - 0x9e37_79b9_7f4a_7c15u64) as u64 == (f * 0x9e37_79b9_7f4a_7c15u64) as u64) by (bit_vector)
        requires
            d == (e * 0x9e37_79b9_7f4a_7c15u64) as u64,
            e != 0,
            f == (e - 1) as u64,
    ;
    assert((((f * 0x9e37_79b9_7f4a_7c15u64) as u64) * 0xf1de83e19937733du64) as u64 == f) by (bit_vector);
}

/// The least of 0, 1, 2 that is neither `a` nor `b`.
spec fn value_avoiding(a: nat, b: nat) -> nat {
    if a != 0 && b != 0 {
        0
    } else if a != 1 && b != 1 {
        1
    } else {
        2
    }
}

/// Number of draws within which a value can always be avoided: the period
/// of the generator.
pub open spec fn redraw_bound() -> nat {
    0x1_0000_0000_0000_0000
}

/// Deterministic SplitMix64 generator driving the neighborhoods.
#[derive(Clone, Copy, Debug)]
pub struct SplitMix64 {
    state: u64,
}

impl View for SplitMix64 {
    type V = u64;

    closed spec fn view(&self) -> u64 {
        self.state
    }
}

/// One index draw for a collection of `length` items from generator state
/// `state`: the state after the draw and the index.
pub open spec fn draw(state: u64, length: nat) -> (u64, nat) {
    let next = splitmix_advance(state);
    (next, (splitmix_mix(next) as nat) % length)
}

/// Starting from the draw that left the generator in `state`, keep drawing
/// until the index is neither `a` nor `b` (at most `fuel` more draws).
pub open spec fn accept_from(state: u64, length: nat, a: nat, b: nat, fuel: nat) -> (u64, nat)
    decreases fuel,
{
    let value = (splitmix_mix(state) as nat) % length;
    if (value != a && value != b) || fuel == 0 {
        (state, value)
    } else {
        accept_from(splitmix_advance(state), length, a, b, (fuel - 1) as nat)
    }
}

/// The first index drawn from `state` that is neither `a` nor `b`.
pub open spec fn draw_avoiding(state: u64, length: nat, a: nat, b: nat) -> (u64, nat) {
    accept_from(splitmix_advance(state), length, a, b, redraw_bound())
}

impl SplitMix64 {
    pub fn new(seed: u64) -> (r: SplitMix64)
        ensures
            r@ == seed,
    {
        SplitMix64 { state: seed }
    }

    /// Advance the state and return its mixed output.
    pub fn next(&mut self) -> (r: u64)
        ensures
            final(self)@ == splitmix_advance(old(self)@),
            r == splitmix_mix(final(self)@),
    {
        // Wrapping addition and multiplications, computed exactly in 128 bits
        // and truncated.
        self.state = ((self.state as u128) + (SPLITMIX_GAMMA as u128)) as u64;
        let z = self.state;
        let a = (((z ^ (z >> 30u64)) as u128) * (0xbf58_476d_1ce4_e5b9u64 as u128)) as u64;
        let b = (((a ^ (a >> 27u64)) as u128) * (0x94d0_49bb_1331_11ebu64 as u128)) as u64;
        b ^ (b >> 31u64)
    }

    /// Draw an index below `length`.
    pub fn index(&mut self, length: usize) -> (r: usize)
        requires
            length > 0,
        ensures
            (final(self)@, r as nat) == draw(old(self)@, length as nat),
            r < length,
    {
        let range = length as u64;
        let value = self.next();
        (value % range) as usize
    }

    /// Draw indices below `length` until one is neither `a` nor `b`.
    pub fn index_avoiding(&mut self, length: usize, a: usize, b: usize) -> (r: usize)
        requires
            a < length,
            b < length,
            length >= 3 || (length >= 2 && a == b),
        ensures
            (final(self)@, r as nat) == draw_avoiding(old(self)@, length as nat, a as nat, b as nat),
            r < length,
            r != a,
            r != b,
    {
        let ghost start = old(self)@;
        let ghost target = splitmix_unmix(value_avoiding(a as nat, b as nat) as u64);
        proof {
            lemma_unmix(value_avoiding(a as nat, b as nat) as u64);
        }
        let mut value = self.index(length);
        let ghost mut fuel: nat = redraw_bound();
        while value == a || value == b
            invariant
                a < length,
                b < length,
                length >= 3 || (length >= 2 && a == b),
                splitmix_mix(target) == value_avoiding(a as nat, b as nat),
                value as nat == (splitmix_mix(self@) as nat) % (length as nat),
                value < length,
                accept_from(self@, length as nat, a as nat, b as nat, fuel) == draw_avoiding(
                    start,
                    length as nat,
                    a as nat,
                    b as nat,
                ),
                steps_between(self@, target) < fuel,
            decreases steps_between(self@, target),
        {
            proof {
                let v = value_avoiding(a as nat, b as nat);
                assert(v < length);
                if self@ == target {
                    assert(splitmix_mix(self@) as nat == v);
                    vstd::arithmetic::div_mod::lemma_small_mod(v, length as nat);
                    assert(value as nat == v);
                }
                lemma_steps_between(self@, target);
            }
            value = self.index(length);
            proof {
                fuel = (fuel - 1) as nat;
            }
        }
        value
    }
}

/// Deterministic reconstruction neighborhoods used by the anytime portfolio.
#[derive(Clone, Copy, Debug, Eq, PartialEq, Structural)]
pub enum NeighborhoodKind {
    Move,
    Swap,
    Rotation,
    EjectionChain,
    RuinRecreate,
}

impl NeighborhoodKind {
    /// Every neighborhood, in the order the portfolio cycles through them.
    pub fn all() -> (r: [NeighborhoodKind; 5])
        ensures
            r@ == seq![
                NeighborhoodKind::Move,
                NeighborhoodKind::Swap,
                NeighborhoodKind::Rotation,
                NeighborhoodKind::EjectionChain,
                NeighborhoodKind::RuinRecreate,
            ],
    {
        [
            NeighborhoodKind::Move,
            NeighborhoodKind::Swap,
            NeighborhoodKind::Rotation,
            NeighborhoodKind::EjectionChain,
            NeighborhoodKind::RuinRecreate,
        ]
    }
}

/// Two distinct positions below `n`: the first drawn from `n`, the second
/// drawn from the `n - 1` others.
pub open spec fn draw_pair(state: u64, n: nat) -> (u64, nat, nat) {
    let (s1, first) = draw(state, n);
    let (s2, t) = draw(s1, (n - 1) as nat);
    (s2, first, if t >= first { t + 1 } else { t })
}

/// Move one item to another position.
pub open spec fn move_spec(ids: Seq<ItemId>, state: u64) -> (Seq<ItemId>, u64) {
    if ids.len() < 2 {
        (ids, state)
    } else {
        let (s, from, to) = draw_pair(state, ids.len());
        (ids.remove(from as int).insert(to as int, ids[from as int]), s)
    }
}

/// Exchange two items.
pub open spec fn swap_spec(ids: Seq<ItemId>, state: u64) -> (Seq<ItemId>, u64) {
    if ids.len() < 2 {
        (ids, state)
    } else {
        let (s, first, second) = draw_pair(state, ids.len());
        (ids.update(first as int, ids[second as int]).update(second as int, ids[first as int]), s)
    }
}

/// The forced rotations with `item`'s entry set to `index`.
pub open spec fn forced_with(forced: Seq<(ItemId, usize)>, item: ItemId, index: usize) -> Seq<
    (ItemId, usize),
> {
    forced.filter(entry_not_for(item)).push((item, index))
}

/// Whether a forced-rotation entry is for another item than `item`.
pub open spec fn entry_not_for(item: ItemId) -> spec_fn((ItemId, usize)) -> bool {
    |entry: (ItemId, usize)| entry.0@ != item@
}

/// Force one item into one of its rotations other than the first (an index
/// from 1 to 5, reduced modulo the item's number of distinct rotations).
pub open spec fn rotate_spec(ids: Seq<ItemId>, forced: Seq<(ItemId, usize)>, state: u64) -> (Seq<
    (ItemId, usize),
>, u64) {
    if ids.len() == 0 {
        (forced, state)
    } else {
        let (s1, position) = draw(state, ids.len());
        let (s2, r) = draw(s1, 5);
        (forced_with(forced, ids[position as int], (1 + r) as usize), s2)
    }
}

/// Rotate three distinct items cyclically: the first position takes the
/// second's item, the second the third's, the third the first's.
pub open spec fn ejection_spec(ids: Seq<ItemId>, state: u64) -> (Seq<ItemId>, u64) {
    let n = ids.len();
    if n < 3 {
        move_spec(ids, state)
    } else {
        let (s1, first) = draw(state, n);
        let (s2, second) = draw_avoiding(s1, n, first, first);
        let (s3, third) = draw_avoiding(s2, n, first, second);
        (
            ids.update(first as int, ids[second as int]).update(second as int, ids[third as int]).update(
                third as int,
                ids[first as int],
            ),
            s3,
        )
    }
}

fn move_item(plan: &mut ConstructionPlan, generator: &mut SplitMix64)
    ensures
        (final(plan).item_ids@, final(generator)@) == move_spec(old(plan).item_ids@, old(generator)@),
        final(plan).item_ids@.to_multiset() == old(plan).item_ids@.to_multiset(),
        final(plan).forced_rotations@ == old(plan).forced_rotations@,
{
    let item_count = plan.item_ids.len();
    if item_count < 2 {
        return ;
    }
    let from = generator.index(item_count);
    let mut to = generator.index(item_count - 1);
    if to >= from {
        to = to + 1;
    }
    let ghost before = plan.item_ids@;
    let item = plan.item_ids.remove(from);
    plan.item_ids.insert(to, item);
    proof {
        assert(before.remove(from as int).to_multiset() == before.to_multiset().remove(item));
        assert(before.to_multiset().remove(item).insert(item) =~= before.to_multiset());
    }
}

fn swap_items(plan: &mut ConstructionPlan, generator: &mut SplitMix64)
    ensures
        (final(plan).item_ids@, final(generator)@) == swap_spec(old(plan).item_ids@, old(generator)@),
        final(plan).item_ids@.to_multiset() == old(plan).item_ids@.to_multiset(),
        final(plan).forced_rotations@ == old(plan).forced_rotations@,
{
    let item_count = plan.item_ids.len();
    if item_count < 2 {
        return ;
    }
    let first = generator.index(item_count);
    let mut second = generator.index(item_count - 1);
    if second >= first {
        second = second + 1;
    }
    let ghost before = plan.item_ids@;
    let a = plan.item_ids[first];
    let b = plan.item_ids[second];
    plan.item_ids.set(first, b);
    plan.item_ids.set(second, a);
    proof {
        lemma_swap_multiset(before, first as int, second as int);
    }
}

/// Exchanging two entries keeps the multiset.
proof fn lemma_swap_multiset<A>(s: Seq<A>, i: int, j: int)
    requires
        0 <= i < s.len(),
        0 <= j < s.len(),
    ensures
        s.update(i, s[j]).update(j, s[i]).to_multiset() == s.to_multiset(),
{
    let t = s.update(i, s[j]);
    assert(t.to_multiset() == s.to_multiset().insert(s[j]).remove(s[i]));
    assert(t.update(j, s[i]).to_multiset() == t.to_multiset().insert(s[i]).remove(t[j]));
    if i == j {
        assert(t.update(j, s[i]) =~= s);
    } else {
        assert(t[j] == s[j]);
        assert(s.to_multiset().insert(s[j]).remove(s[i]).insert(s[i]).remove(s[j]) =~= s.to_multiset());
    }
}

/// Replace `item`'s forced rotation by `index`.
fn set_forced_rotation(forced: &mut Vec<(ItemId, usize)>, item: ItemId, index: usize)
    ensures
        final(forced)@ == forced_with(old(forced)@, item, index),
{
    let mut kept: Vec<(ItemId, usize)> = Vec::new();
    let mut i: usize = 0;
    while i < forced.len()
        invariant
            0 <= i <= forced@.len(),
            forced@ == old(forced)@,
            kept@ == forced@.take(i as int).filter(entry_not_for(item)),
        decreases forced@.len() - i,
    {
        let entry = forced[i];
        let ghost prefix = forced@.take(i + 1);
        proof {
            reveal(Seq::filter);
            assert(prefix.drop_last() =~= forced@.take(i as int));
            assert(prefix.last() == entry);
            assert(entry_not_for(item)(entry) == (entry.0@ != item@));
            assert(prefix.filter(entry_not_for(item)) == if entry_not_for(item)(entry) {
                forced@.take(i as int).filter(entry_not_for(item)).push(entry)
            } else {
                forced@.take(i as int).filter(entry_not_for(item))
            });
        }
        if entry.0.index() != item.index() {
            kept.push(entry);
        }
        i = i + 1;
    }
    assert(forced@.take(forced@.len() as int) =~= forced@);
    kept.push((item, index));
    *forced = kept;
}

fn rotate_item(plan: &mut ConstructionPlan, generator: &mut SplitMix64)
    ensures
        (final(plan).forced_rotations@, final(generator)@) == rotate_spec(
            old(plan).item_ids@,
            old(plan).forced_rotations@,
            old(generator)@,
        ),
        final(plan).item_ids@ == old(plan).item_ids@,
{
    if plan.item_ids.len() == 0 {
        return ;
    }
    let position = generator.index(plan.item_ids.len());
    let item_id = plan.item_ids[position];
    let rotation_index = 1 + generator.index(5);
    set_forced_rotation(&mut plan.forced_rotations, item_id, rotation_index);
}

fn ejection_chain(plan: &mut ConstructionPlan, generator: &mut SplitMix64)
    ensures
        (final(plan).item_ids@, final(generator)@) == ejection_spec(old(plan).item_ids@, old(generator)@),
        final(plan).item_ids@.to_multiset() == old(plan).item_ids@.to_multiset(),
        final(plan).forced_rotations@ == old(plan).forced_rotations@,
{
    let item_count = plan.item_ids.len();
    if item_count < 3 {
        move_item(plan, generator);
        return ;
    }
    let first = generator.index(item_count);
    let second = generator.index_avoiding(item_count, first, first);
    let third = generator.index_avoiding(item_count, first, second);
    let ghost before = plan.item_ids@;
    let first_item = plan.item_ids[first];
    let second_item = plan.item_ids[second];
    let third_item = plan.item_ids[third];
    plan.item_ids.set(first, second_item);
    plan.item_ids.set(second, third_item);
    plan.item_ids.set(third, first_item);
    proof {
        let s1 = before.update(first as int, before[second as int]).update(second as int, before[first as int]);
        lemma_swap_multiset(before, first as int, second as int);
        lemma_swap_multiset(s1, second as int, third as int);
        assert(s1.update(second as int, s1[third as int]).update(third as int, s1[second as int])
            =~= plan.item_ids@);
    }
}

/// Fisher-Yates steps from position `upper` down to 1: each position is
/// exchanged with an index drawn from the positions up to it.
pub open spec fn shuffle_steps<A>(values: Seq<A>, state: u64, upper: nat) -> (Seq<A>, u64)
    decreases upper,
{
    if upper == 0 {
        (values, state)
    } else {
        let (s1, selected) = draw(state, upper + 1);
        shuffle_steps(
            values.update(upper as int, values[selected as int]).update(
                selected as int,
                values[upper as int],
            ),
            s1,
            (upper - 1) as nat,
        )
    }
}

/// The seeded shuffle of `values` and the generator state after it.
pub open spec fn shuffled<A>(values: Seq<A>, state: u64) -> (Seq<A>, u64) {
    if values.len() == 0 {
        (values, state)
    } else {
        shuffle_steps(values, state, (values.len() - 1) as nat)
    }
}

proof fn lemma_shuffle_steps<A>(values: Seq<A>, state: u64, upper: nat)
    requires
        upper < values.len(),
    ensures
        shuffle_steps(values, state, upper).0.to_multiset() == values.to_multiset(),
        shuffle_steps(values, state, upper).0.len() == values.len(),
    decreases upper,
{
    if upper > 0 {
        let (s1, selected) = draw(state, upper + 1);
        lemma_swap_multiset(values, upper as int, selected as int);
        lemma_shuffle_steps(
            values.update(upper as int, values[selected as int]).update(
                selected as int,
                values[upper as int],
            ),
            s1,
            (upper - 1) as nat,
        );
    }
}

/// Shuffling keeps the multiset and the length.
pub proof fn lemma_shuffled<A>(values: Seq<A>, state: u64)
    ensures
        shuffled(values, state).0.to_multiset() == values.to_multiset(),
        shuffled(values, state).0.len() == values.len(),
{
    if values.len() > 0 {
        lemma_shuffle_steps(values, state, (values.len() - 1) as nat);
    }
}

/// Shuffle `values` in place with the generator (Fisher-Yates from the back).
fn seeded_shuffle<T: Copy>(values: &mut Vec<T>, generator: &mut SplitMix64)
    ensures
        (final(values)@, final(generator)@) == shuffled(old(values)@, old(generator)@),
        final(values)@.to_multiset() == old(values)@.to_multiset(),
{
    proof {
        lemma_shuffled(old(values)@, old(generator)@);
    }
    if values.len() == 0 {
        return ;
    }
    let length = values.len();
    let mut upper: usize = length - 1;
    while upper > 0
        invariant
            upper < values@.len(),
            values@.len() == length,
            shuffle_steps(values@, generator@, upper as nat) == shuffled(old(values)@, old(generator)@),
        decreases upper,
    {
        let selected = generator.index(upper + 1);
        let a = values[upper];
        let b = values[selected];
        values.set(upper, b);
        values.set(selected, a);
        upper = upper - 1;
    }
}

/// The entries of `s` at the positions whose mark equals `inside`, in order.
pub open spec fn positions_where<A>(s: Seq<A>, marks: Seq<bool>, inside: bool) -> Seq<A>
    decreases s.len(),
{
    if s.len() == 0 {
        s
    } else {
        let rest = positions_where(s.drop_last(), marks, inside);
        if marks[s.len() - 1] == inside {
            rest.push(s.last())
        } else {
            rest
        }
    }
}

/// The marked and the unmarked entries together are the whole sequence.
proof fn lemma_positions_partition<A>(s: Seq<A>, marks: Seq<bool>)
    ensures
        positions_where(s, marks, false).to_multiset().add(positions_where(s, marks, true).to_multiset())
            == s.to_multiset(),
        positions_where(s, marks, false).len() + positions_where(s, marks, true).len() == s.len(),
    decreases s.len(),
{
    if s.len() > 0 {
        lemma_positions_partition(s.drop_last(), marks);
        assert(s =~= s.drop_last().push(s.last()));
        let f = positions_where(s.drop_last(), marks, false).to_multiset();
        let t = positions_where(s.drop_last(), marks, true).to_multiset();
        assert(f.insert(s.last()).add(t) =~= f.add(t).insert(s.last()));
        assert(f.add(t.insert(s.last())) =~= f.add(t).insert(s.last()));
    }
}

/// A marked position contributes an entry.
proof fn lemma_positions_marked<A>(s: Seq<A>, marks: Seq<bool>, q: int)
    requires
        0 <= q < s.len(),
        marks[q],
    ensures
        positions_where(s, marks, true).len() > 0,
    decreases s.len(),
{
    if q < s.len() - 1 {
        lemma_positions_marked(s.drop_last(), marks, q);
    }
}

/// Number of items removed by ruin-and-recreate from a plan of `n` items.
pub open spec fn ruin_size(n: nat) -> nat {
    if 1 + n / 4 < 2 {
        2
    } else {
        1 + n / 4
    }
}

/// Marks the positions below `n` among the first `count` entries of `order`.
pub open spec fn ruin_marks(order: Seq<usize>, count: nat, n: nat) -> Seq<bool> {
    Seq::new(n, |p: int| order.take(count as int).contains(p as usize))
}

/// Remove a shuffled selection of items, shuffle them, and insert them back
/// as one block at a drawn position among the remaining items.
pub open spec fn ruin_spec(ids: Seq<ItemId>, state: u64) -> (Seq<ItemId>, u64) {
    let n = ids.len();
    if n < 2 {
        (ids, state)
    } else {
        let (order, s1) = shuffled(all_positions(n), state);
        let marks = ruin_marks(order, ruin_size(n), n);
        let kept = positions_where(ids, marks, false);
        let (ruined, s2) = shuffled(positions_where(ids, marks, true), s1);
        let (s3, at) = draw(s2, kept.len() + 1);
        (kept.take(at as int) + ruined + kept.skip(at as int), s3)
    }
}

fn ruin_recreate(plan: &mut ConstructionPlan, generator: &mut SplitMix64)
    ensures
        (final(plan).item_ids@, final(generator)@) == ruin_spec(old(plan).item_ids@, old(generator)@),
        final(plan).item_ids@.to_multiset() == old(plan).item_ids@.to_multiset(),
        final(plan).forced_rotations@ == old(plan).forced_rotations@,
{
    let ids = plan.item_ids.clone();
    let item_count = ids.len();
    if item_count < 2 {
        return ;
    }
    let mut ruin_count = 1 + item_count / 4;
    if ruin_count < 2 {
        ruin_count = 2;
    }
    let mut indices: Vec<usize> = Vec::new();
    let mut p: usize = 0;
    while p < item_count
        invariant
            0 <= p <= item_count,
            indices@ == all_positions(p as nat),
        decreases item_count - p,
    {
        indices.push(p);
        p = p + 1;
        assert(indices@ =~= all_positions(p as nat));
    }
    let ghost s0 = generator@;
    seeded_shuffle(&mut indices, generator);
    proof {
        lemma_shuffled(all_positions(item_count as nat), s0);
    }
    let mut marks: Vec<bool> = Vec::new();
    let mut p: usize = 0;
    while p < item_count
        invariant
            0 <= p <= item_count,
            marks@ == Seq::new(p as nat, |q: int| false),
        decreases item_count - p,
    {
        marks.push(false);
        p = p + 1;
        assert(marks@ =~= Seq::new(p as nat, |q: int| false));
    }
    let mut j: usize = 0;
    while j < ruin_count
        invariant
            0 <= j <= ruin_count <= item_count,
            indices@.len() == item_count,
            marks@ == ruin_marks(indices@, j as nat, item_count as nat),
        decreases ruin_count - j,
    {
        let index = indices[j];
        let ghost before = marks@;
        if index < item_count {
            marks.set(index, true);
        }
        proof {
            let t = indices@.take(j as int);
            let t1 = indices@.take(j + 1);
            assert(t1 =~= t.push(index));
            assert forall|q: int| 0 <= q < item_count implies marks@[q] == t1.contains(q as usize) by {
                if t.contains(q as usize) {
                    let w = choose|w: int| 0 <= w < t.len() && t[w] == q as usize;
                    assert(t1[w] == q as usize);
                }
                if q as usize == index {
                    assert(t1[j as int] == index);
                }
                if t1.contains(q as usize) {
                    let w = choose|w: int| 0 <= w < t1.len() && t1[w] == q as usize;
                    if w < j {
                        assert(t[w] == t1[w]);
                    }
                }
            }
            assert(marks@ =~= ruin_marks(indices@, (j + 1) as nat, item_count as nat));
        }
        j = j + 1;
    }
    let mut kept: Vec<ItemId> = Vec::new();
    let mut ruined: Vec<ItemId> = Vec::new();
    let mut p: usize = 0;
    while p < item_count
        invariant
            0 <= p <= item_count,
            ids@.len() == item_count,
            marks@.len() == item_count,
            kept@ == positions_where(ids@.take(p as int), marks@, false),
            ruined@ == positions_where(ids@.take(p as int), marks@, true),
        decreases item_count - p,
    {
        proof {
            assert(ids@.take(p + 1).drop_last() =~= ids@.take(p as int));
        }
        if marks[p] {
            ruined.push(ids[p]);
        } else {
            kept.push(ids[p]);
        }
        p = p + 1;
    }
    assert(ids@.take(item_count as int) =~= ids@);
    proof {
        lemma_positions_partition(ids@, marks@);
        let first = indices@[0];
        assert(indices@.contains(first));
        assert(all_positions(item_count as nat).to_multiset().count(first) > 0);
        vstd::seq_lib::to_multiset_contains(all_positions(item_count as nat), first);
        assert(all_positions(item_count as nat).contains(first));
        assert(first < item_count);
        assert(indices@.take(ruin_count as int)[0] == first);
        assert(marks@[first as int]);
        lemma_positions_marked(ids@, marks@, first as int);
    }
    let ghost unshuffled = ruined@;
    seeded_shuffle(&mut ruined, generator);
    let at = generator.index(kept.len() + 1);
    let mut result: Vec<ItemId> = Vec::new();
    let mut k: usize = 0;
    while k < at
        invariant
            0 <= k <= at <= kept@.len(),
            result@ == kept@.take(k as int),
        decreases at - k,
    {
        result.push(kept[k]);
        k = k + 1;
        assert(result@ =~= kept@.take(k as int));
    }
    let mut k: usize = 0;
    while k < ruined.len()
        invariant
            0 <= k <= ruined@.len(),
            at <= kept@.len(),
            result@ == kept@.take(at as int) + ruined@.take(k as int),
        decreases ruined@.len() - k,
    {
        result.push(ruined[k]);
        k = k + 1;
        assert(result@ =~= kept@.take(at as int) + ruined@.take(k as int));
    }
    let mut k: usize = at;
    while k < kept.len()
        invariant
            at <= k <= kept@.len(),
            result@ == kept@.take(at as int) + ruined@ + kept@.subrange(at as int, k as int),
        decreases kept@.len() - k,
    {
        assert(ruined@.take(ruined@.len() as int) =~= ruined@);
        result.push(kept[k]);
        k = k + 1;
        assert(result@ =~= kept@.take(at as int) + ruined@ + kept@.subrange(at as int, k as int));
    }
    proof {
        assert(ruined@.take(ruined@.len() as int) =~= ruined@);
        assert(kept@.subrange(at as int, kept@.len() as int) =~= kept@.skip(at as int));
        let a = kept@.take(at as int);
        let b = kept@.skip(at as int);
        assert(kept@ =~= a + b);
        vstd::seq_lib::lemma_multiset_commutative(a, ruined@);
        vstd::seq_lib::lemma_multiset_commutative(a + ruined@, b);
        vstd::seq_lib::lemma_multiset_commutative(a, b);
        assert(result@.to_multiset() =~= kept@.to_multiset().add(ruined@.to_multiset()));
    }
    plan.item_ids = result;
}

/// Mapping both sides of a multiset equality keeps it.
pub proof fn lemma_map_values_multiset<A, B>(s1: Seq<A>, s2: Seq<A>, f: spec_fn(A) -> B)
    requires
        s1.to_multiset() == s2.to_multiset(),
    ensures
        s1.map_values(f).to_multiset() == s2.map_values(f).to_multiset(),
    decreases s1.len(),
{
    if s1.len() == 0 {
        assert(s1.to_multiset().len() == s1.len());
        assert(s2.to_multiset().len() == s2.len());
        assert(s2.len() == 0);
        assert(s1.map_values(f) =~= s2.map_values(f));
    } else {
        let x = s1.last();
        let r1 = s1.drop_last();
        assert(s1 =~= r1.push(x));
        assert(s1.to_multiset().count(x) > 0);
        assert(s2.contains(x));
        let j = choose|j: int| 0 <= j < s2.len() && s2[j] == x;
        let r2 = s2.remove(j);
        assert(r2.to_multiset() == s2.to_multiset().remove(x));
        assert(r1.to_multiset() == s1.to_multiset().remove(x)) by {
            assert(r1.to_multiset().insert(x).remove(x) =~= r1.to_multiset());
        }
        lemma_map_values_multiset(r1, r2, f);
        assert(s1.map_values(f) =~= r1.map_values(f).push(f(x)));
        assert(s2.map_values(f) =~= r2.map_values(f).insert(j, f(x)));
    }
}

/// The item order and forced rotations produced by one neighborhood applied
/// to the order `ids` with a generator seeded by `seed`.
pub open spec fn neighborhood_spec(ids: Seq<ItemId>, kind: NeighborhoodKind, seed: u64) -> (Seq<
    ItemId,
>, Seq<(ItemId, usize)>) {
    match kind {
        NeighborhoodKind::Move => (move_spec(ids, seed).0, Seq::empty()),
        NeighborhoodKind::Swap => (swap_spec(ids, seed).0, Seq::empty()),
        NeighborhoodKind::Rotation => (ids, rotate_spec(ids, Seq::empty(), seed).0),
        NeighborhoodKind::EjectionChain => (ejection_spec(ids, seed).0, Seq::empty()),
        NeighborhoodKind::RuinRecreate => (ruin_spec(ids, seed).0, Seq::empty()),
    }
}

/// Apply one neighborhood, with a generator seeded by `seed`, to the
/// canonical plan. The result still names every item exactly once; only the
/// rotation neighborhood forces a rotation, and it keeps the canonical order.
pub fn neighborhood_plan(instance: &PackingInstance, kind: NeighborhoodKind, seed: u64) -> (r:
    ConstructionPlan)
    ensures
        exists|canonical: Seq<ItemId>|
            canonical_order(*instance, canonical) && (r.item_ids@, r.forced_rotations@)
                == neighborhood_spec(canonical, kind, seed),
        plan_covers(*instance, r),
        kind == NeighborhoodKind::Rotation ==> {
            &&& canonical_order(*instance, r.item_ids@)
            &&& r.item_ids@.len() > 0 ==> r.forced_rotations@.len() == 1 && 1 <= r.forced_rotations@[0].1 <= 5
        },
        kind != NeighborhoodKind::Rotation ==> r.forced_rotations@.len() == 0,
{
    let mut plan = ConstructionPlan::canonical(instance);
    let ghost canonical = plan.item_ids@;
    let mut generator = SplitMix64::new(seed);
    match kind {
        NeighborhoodKind::Move => move_item(&mut plan, &mut generator),
        NeighborhoodKind::Swap => swap_items(&mut plan, &mut generator),
        NeighborhoodKind::Rotation => {
            rotate_item(&mut plan, &mut generator);
            proof {
                reveal(Seq::filter);
                assert(Seq::<(ItemId, usize)>::empty().filter(entry_not_for(canonical[0])) =~= Seq::empty());
            }
        },
        NeighborhoodKind::EjectionChain => ejection_chain(&mut plan, &mut generator),
        NeighborhoodKind::RuinRecreate => ruin_recreate(&mut plan, &mut generator),
    }
    proof {
        lemma_map_values_multiset(plan.item_ids@, canonical, |id: ItemId| id@);
    }
    plan
}

/// The plan used by a seeded work unit: the seed picks, by its remainder
/// modulo six, either a seeded shuffle of the canonical order or one of the
/// five neighborhoods of the canonical plan.
pub open spec fn seeded_plan_spec(canonical: Seq<ItemId>, seed: u64) -> (Seq<ItemId>, Seq<(ItemId, usize)>) {
    let k = seed % 6;
    if k == 0 {
        (shuffled(canonical, seed).0, Seq::empty())
    } else {
        neighborhood_spec(canonical, NeighborhoodKind::all_spec()[k - 1], seed)
    }
}

impl NeighborhoodKind {
    pub open spec fn all_spec() -> Seq<NeighborhoodKind> {
        seq![
            NeighborhoodKind::Move,
            NeighborhoodKind::Swap,
            NeighborhoodKind::Rotation,
            NeighborhoodKind::EjectionChain,
            NeighborhoodKind::RuinRecreate,
        ]
    }
}

/// The construction plan of the seeded work unit with seed `seed`.
pub fn seeded_plan(instance: &PackingInstance, seed: u64) -> (r: ConstructionPlan)
    ensures
        exists|canonical: Seq<ItemId>|
            canonical_order(*instance, canonical) && (r.item_ids@, r.forced_rotations@)
                == seeded_plan_spec(canonical, seed),
        plan_covers(*instance, r),
{
    let k = seed % 6;
    if k == 0 {
        let mut plan = ConstructionPlan::canonical(instance);
        let ghost canonical = plan.item_ids@;
        let mut generator = SplitMix64::new(seed);
        seeded_shuffle(&mut plan.item_ids, &mut generator);
        proof {
            lemma_map_values_multiset(plan.item_ids@, canonical, |id: ItemId| id@);
        }
        plan
    } else {
        let kinds = NeighborhoodKind::all();
        let kind = kinds[(k - 1) as usize];
        assert(kinds@ == NeighborhoodKind::all_spec());
        neighborhood_plan(instance, kind, seed)
    }
}

} // verus!
