//! The reordering of a block's movable instructions.
//!
//! A conditional jump and a jump destination stay where they are. The other
//! instructions of a block are movable: a number of random exchanges is made
//! among their slots, and each movable instruction is then put into the slot
//! that the exchanges left in its place.

use crate::evm::{bytes_of, Opcode};
use crate::stream::{index_drawn, Stream, StreamState};
use vstd::prelude::*;

verus! {

/// Whether an instruction keeps its place when a block is reordered.
pub open spec fn stays_put(op: Opcode) -> bool {
    op == Opcode::JUMPI || op == Opcode::JUMPDEST
}

/// The positions of the movable instructions of `ops`, in rising order.
pub open spec fn movable_slots(ops: Seq<Opcode>) -> Seq<int>
    decreases ops.len(),
{
    if ops.len() == 0 {
        Seq::empty()
    } else {
        let before = movable_slots(ops.drop_last());
        if stays_put(ops.last()) {
            before
        } else {
            before.push(ops.len() - 1)
        }
    }
}

/// `s` with the items at `i` and `j` exchanged.
pub open spec fn exchanged<A>(s: Seq<A>, i: int, j: int) -> Seq<A> {
    s.update(i, s[j]).update(j, s[i])
}

/// The slots after `rounds` exchanges, each between two places drawn one
/// after the other from a generator in the given state, and the state after
/// the last draw. With fewer than two slots nothing is drawn.
pub open spec fn shuffled(slots: Seq<int>, rounds: nat, state: StreamState) -> (
    Seq<int>,
    StreamState,
)
    decreases rounds,
{
    if rounds == 0 || slots.len() <= 1 {
        (slots, state)
    } else {
        let bound = slots.len() as u64;
        let i = index_drawn(state, bound);
        let j = index_drawn(state.after_index(bound), bound);
        shuffled(
            exchanged(slots, i as int, j as int),
            (rounds - 1) as nat,
            state.after_index(bound).after_index(bound),
        )
    }
}

/// `ops` after the first `k` placements: for each of them in turn, the slot
/// `to[m]` takes the instruction that `ops` holds at `from[m]`.
pub open spec fn placed_upto(ops: Seq<Opcode>, from: Seq<int>, to: Seq<int>, k: nat) -> Seq<Opcode>
    decreases k,
{
    if k == 0 {
        ops
    } else {
        placed_upto(ops, from, to, (k - 1) as nat).update(to[k - 1], ops[from[k - 1]])
    }
}

/// `ops` after every slot `to[m]` has taken the instruction that `ops`
/// holds at `from[m]`.
pub open spec fn placed(ops: Seq<Opcode>, from: Seq<int>, to: Seq<int>) -> Seq<Opcode> {
    placed_upto(ops, from, to, to.len())
}

/// A block after reordering with `rounds` exchanges drawn from a generator
/// in the given state, and the state after the last draw.
pub open spec fn reordered(ops: Seq<Opcode>, rounds: nat, state: StreamState) -> (
    Seq<Opcode>,
    StreamState,
) {
    let slots = movable_slots(ops);
    let (targets, end) = shuffled(slots, rounds, state);
    (placed(ops, slots, targets), end)
}

/// The positions that a vector of slots holds.
spec fn positions(slots: Seq<usize>) -> Seq<int> {
    slots.map_values(|slot: usize| slot as int)
}

/// Slots that lie within a block of `len` instructions, none of them twice.
spec fn distinct_within(slots: Seq<int>, len: int) -> bool {
    &&& forall|k: int| 0 <= k < slots.len() ==> 0 <= #[trigger] slots[k] < len
    &&& forall|k: int, m: int| 0 <= k < m < slots.len() ==> slots[k] != slots[m]
}

/// Slots that all hold movable instructions of `ops`.
spec fn all_movable(slots: Seq<int>, ops: Seq<Opcode>) -> bool {
    forall|k: int| 0 <= k < slots.len() ==> !stays_put(#[trigger] ops[slots[k]])
}

/// Among the first `k` placements, the last that writes to slot `p`; -1 if
/// none does.
spec fn writer_of(to: Seq<int>, k: nat, p: int) -> int
    decreases k,
{
    if k == 0 {
        -1
    } else if to[k - 1] == p {
        k - 1
    } else {
        writer_of(to, (k - 1) as nat, p)
    }
}

proof fn lemma_writer_of(to: Seq<int>, k: nat, p: int)
    ensures
        -1 <= writer_of(to, k, p) < k,
        writer_of(to, k, p) >= 0 ==> to[writer_of(to, k, p)] == p,
        forall|m: int| writer_of(to, k, p) < m < k ==> to[m] != p,
    decreases k,
{
    if k > 0 && to[k - 1] != p {
        lemma_writer_of(to, (k - 1) as nat, p);
    }
}

proof fn lemma_placed_upto(ops: Seq<Opcode>, from: Seq<int>, to: Seq<int>, k: nat)
    requires
        k <= to.len(),
        forall|m: int| 0 <= m < to.len() ==> 0 <= #[trigger] to[m] < ops.len(),
    ensures
        placed_upto(ops, from, to, k).len() == ops.len(),
        forall|p: int|
            0 <= p < ops.len() ==> #[trigger] placed_upto(ops, from, to, k)[p] == if writer_of(
                to,
                k,
                p,
            ) >= 0 {
                ops[from[writer_of(to, k, p)]]
            } else {
                ops[p]
            },
    decreases k,
{
    if k > 0 {
        lemma_placed_upto(ops, from, to, (k - 1) as nat);
        assert(0 <= to[k - 1] < ops.len());
    }
}

/// The movable slots of a block lie within it, rise strictly, and hold its
/// movable instructions, all of them.
pub proof fn lemma_movable_slots(ops: Seq<Opcode>)
    ensures
        movable_slots(ops).len() <= ops.len(),
        forall|k: int|
            0 <= k < movable_slots(ops).len() ==> 0 <= #[trigger] movable_slots(ops)[k]
                < ops.len(),
        forall|k: int, m: int|
            0 <= k < m < movable_slots(ops).len() ==> movable_slots(ops)[k] < movable_slots(
                ops,
            )[m],
        forall|k: int|
            0 <= k < movable_slots(ops).len() ==> !stays_put(
                #[trigger] ops[movable_slots(ops)[k]],
            ),
        forall|p: int|
            0 <= p < ops.len() && !stays_put(ops[p]) ==> #[trigger] movable_slots(ops).contains(p),
    decreases ops.len(),
{
    if ops.len() > 0 {
        let head = ops.drop_last();
        let before = movable_slots(head);
        let slots = movable_slots(ops);
        lemma_movable_slots(head);
        assert forall|k: int| 0 <= k < slots.len() implies !stays_put(#[trigger] ops[slots[k]]) by {
            if k < before.len() {
                assert(slots[k] == before[k]);
                assert(ops[before[k]] == head[before[k]]);
            }
        }
        assert forall|p: int| 0 <= p < ops.len() && !stays_put(ops[p]) implies slots.contains(
            p,
        ) by {
            if p < head.len() {
                assert(head[p] == ops[p]);
                assert(before.contains(p));
                let k = choose|k: int| 0 <= k < before.len() && before[k] == p;
                assert(slots[k] == p);
            } else {
                assert(slots[slots.len() - 1] == p);
            }
        }
    }
}

proof fn lemma_placed_on_own_slots(ops: Seq<Opcode>, slots: Seq<int>)
    requires
        distinct_within(slots, ops.len() as int),
    ensures
        placed(ops, slots, slots) == ops,
{
    lemma_placed_upto(ops, slots, slots, slots.len());
    assert forall|p: int| 0 <= p < ops.len() implies placed(ops, slots, slots)[p] == ops[p] by {
        lemma_writer_of(slots, slots.len(), p);
    }
    assert(placed(ops, slots, slots) =~= ops);
}

proof fn lemma_placed_after_exchange(
    ops: Seq<Opcode>,
    from: Seq<int>,
    to: Seq<int>,
    i: int,
    j: int,
)
    requires
        distinct_within(to, ops.len() as int),
        0 <= i < to.len(),
        0 <= j < to.len(),
    ensures
        distinct_within(exchanged(to, i, j), ops.len() as int),
        placed(ops, from, exchanged(to, i, j)) == exchanged(placed(ops, from, to), to[i], to[j]),
{
    let n = to.len();
    let next = exchanged(to, i, j);
    let before = placed(ops, from, to);
    let after = placed(ops, from, next);
    assert forall|k: int, m: int| 0 <= k < m < next.len() implies next[k] != next[m] by {
        let k0 = if k == i {
            j
        } else if k == j {
            i
        } else {
            k
        };
        let m0 = if m == i {
            j
        } else if m == j {
            i
        } else {
            m
        };
        assert(next[k] == to[k0]);
        assert(next[m] == to[m0]);
        assert(k0 != m0);
    }
    lemma_placed_upto(ops, from, to, n);
    lemma_placed_upto(ops, from, next, n);
    assert forall|p: int| 0 <= p < ops.len() implies after[p] == exchanged(
        before,
        to[i],
        to[j],
    )[p] by {
        lemma_writer_of(to, n, p);
        lemma_writer_of(next, n, p);
        lemma_writer_of(to, n, to[i]);
        lemma_writer_of(to, n, to[j]);
        let r = writer_of(to, n, p);
        let s = writer_of(next, n, p);
        if p == to[i] {
            assert(next[j] == p);
            assert(s == j);
            assert(writer_of(to, n, to[j]) == j);
        } else if p == to[j] {
            assert(next[i] == p);
            assert(s == i);
            assert(writer_of(to, n, to[i]) == i);
        } else {
            if r >= 0 {
                assert(r != i && r != j);
                assert(next[r] == p);
                assert(s == r);
            } else {
                if s >= 0 {
                    let s0 = if s == i {
                        j
                    } else if s == j {
                        i
                    } else {
                        s
                    };
                    assert(to[s0] == p);
                }
                assert(s == -1);
            }
        }
    }
    assert(after =~= exchanged(before, to[i], to[j]));
}

/// Exchanging two items leaves a sequence with the same items as before.
pub proof fn lemma_exchanged_keeps_items<A>(s: Seq<A>, p: int, q: int)
    requires
        0 <= p < s.len(),
        0 <= q < s.len(),
    ensures
        exchanged(s, p, q).to_multiset() == s.to_multiset(),
{
    broadcast use vstd::multiset::group_multiset_axioms;

    let once = s.update(p, s[q]);
    vstd::seq_lib::to_multiset_update(s, p, s[q]);
    vstd::seq_lib::to_multiset_update(once, q, s[p]);
    vstd::seq_lib::to_multiset_contains(s, s[p]);
    vstd::seq_lib::to_multiset_contains(s, s[q]);
    assert(s.contains(s[p]));
    assert(s.contains(s[q]));
    assert(once[q] == s[q]);
    assert(exchanged(s, p, q).to_multiset() =~= s.to_multiset());
}

/// Reorders the movable instructions of `ops` by `swaps` exchanges drawn
/// from `stream`. The result holds the same instructions as `ops`, and each
/// conditional jump and jump destination where it was.
pub fn reorder(ops: &Vec<Opcode>, swaps: usize, stream: &mut Stream) -> (arranged: Vec<Opcode>)
    ensures
        arranged@ == reordered(ops@, swaps as nat, old(stream)@).0,
        final(stream)@ == reordered(ops@, swaps as nat, old(stream)@).1,
        arranged@.len() == ops@.len(),
        forall|p: int| 0 <= p < ops@.len() && stays_put(ops@[p]) ==> arranged@[p] == ops@[p],
        arranged@.to_multiset() == ops@.to_multiset(),
        bytes_of(arranged@).to_multiset() == bytes_of(ops@).to_multiset(),
{
    let ghost start = stream@;
    let mut slots: Vec<usize> = Vec::new();
    let mut targets: Vec<usize> = Vec::new();
    let mut arranged: Vec<Opcode> = Vec::new();
    let mut at: usize = 0;
    proof {
        assert(ops@.take(0) =~= Seq::<Opcode>::empty());
        assert(positions(slots@) =~= Seq::<int>::empty());
    }
    while at < ops.len()
        invariant
            at <= ops.len(),
            positions(slots@) == movable_slots(ops@.take(at as int)),
            targets@ == slots@,
            arranged@ == ops@.take(at as int),
        decreases ops.len() - at,
    {
        let op = ops[at];
        proof {
            let next = ops@.take(at + 1);
            assert(next.drop_last() =~= ops@.take(at as int));
            assert(next.last() == op);
            assert(positions(slots@.push(at)) =~= positions(slots@).push(at as int));
            assert(ops@.take(at as int).push(op) =~= next);
        }
        match op {
            Opcode::JUMPI | Opcode::JUMPDEST => {},
            _ => {
                slots.push(at);
                targets.push(at);
            },
        }
        arranged.push(op);
        at += 1;
    }
    let count = slots.len();
    let ghost from = positions(slots@);
    proof {
        assert(ops@.take(at as int) =~= ops@);
        lemma_movable_slots(ops@);
        lemma_placed_on_own_slots(ops@, from);
    }
    if count > 1 {
        let mut round: usize = 0;
        while round < swaps
            invariant
                round <= swaps,
                count == targets@.len(),
                count == from.len(),
                count > 1,
                count <= ops@.len(),
                distinct_within(positions(targets@), ops@.len() as int),
                all_movable(positions(targets@), ops@),
                shuffled(positions(targets@), (swaps - round) as nat, stream@) == shuffled(
                    from,
                    swaps as nat,
                    start,
                ),
                placed(ops@, from, positions(targets@)).to_multiset() == ops@.to_multiset(),
                bytes_of(placed(ops@, from, positions(targets@))).to_multiset() == bytes_of(
                    ops@,
                ).to_multiset(),
            decreases swaps - round,
        {
            let ghost to = positions(targets@);
            let i = stream.next_range(count);
            let j = stream.next_range(count);
            let first = targets[i];
            let second = targets[j];
            targets.set(i, second);
            targets.set(j, first);
            proof {
                let next = positions(targets@);
                let before = placed(ops@, from, to);
                assert(first == to[i as int]);
                assert(second == to[j as int]);
                assert(next =~= exchanged(to, i as int, j as int));
                lemma_placed_after_exchange(ops@, from, to, i as int, j as int);
                lemma_placed_upto(ops@, from, to, to.len());
                lemma_exchanged_keeps_items(before, to[i as int], to[j as int]);
                lemma_exchanged_keeps_items(bytes_of(before), to[i as int], to[j as int]);
                assert(bytes_of(exchanged(before, to[i as int], to[j as int])) =~= exchanged(
                    bytes_of(before),
                    to[i as int],
                    to[j as int],
                ));
                assert forall|k: int| 0 <= k < next.len() implies !stays_put(
                    #[trigger] ops@[next[k]],
                ) by {
                    let k0 = if k == i {
                        j as int
                    } else if k == j {
                        i as int
                    } else {
                        k
                    };
                    assert(next[k] == to[k0]);
                }
            }
            round += 1;
        }
    }
    let ghost to = positions(targets@);
    let mut k: usize = 0;
    while k < count
        invariant
            k <= count,
            count == targets@.len(),
            count == slots@.len(),
            to == positions(targets@),
            from == positions(slots@),
            forall|m: int| 0 <= m < to.len() ==> 0 <= #[trigger] to[m] < ops@.len(),
            forall|m: int| 0 <= m < from.len() ==> 0 <= #[trigger] from[m] < ops@.len(),
            arranged@ == placed_upto(ops@, from, to, k as nat),
        decreases count - k,
    {
        proof {
            lemma_placed_upto(ops@, from, to, k as nat);
            assert(to[k as int] == targets@[k as int]);
            assert(from[k as int] == slots@[k as int]);
        }
        arranged.set(targets[k], ops[slots[k]]);
        k += 1;
    }
    proof {
        lemma_placed_upto(ops@, from, to, to.len());
        assert forall|p: int| 0 <= p < ops@.len() && stays_put(ops@[p]) implies arranged@[p]
            == ops@[p] by {
            lemma_writer_of(to, to.len(), p);
        }
    }
    arranged
}

} // verus!
