//! The rewrite of a block, instruction by instruction.
//!
//! Each instruction is written out under one of four rules: as it is,
//! substituted by an equivalent sequence, followed by a false branch, or
//! followed by flower instructions. Which rule applies is drawn from the
//! generator.

use crate::evm::{byte_of, bytes_of, Opcode};
use crate::stream::{byte_drawn, gate_drawn, Stream, StreamState};
use vstd::multiset::Multiset;
use vstd::prelude::*;

verus! {

/// The rule under which one instruction is written out.
#[derive(Debug, PartialEq, Eq, Clone, Copy, Structural)]
pub enum Rewrite {
    /// The instruction as it is.
    Passthrough,
    /// In place of an addition, twice "push 1, add".
    Substitution,
    /// After the instruction, a branch that nothing reaches: a jump
    /// destination, the byte `filler`, a pop and a halt.
    FalseBranch { filler: u8 },
    /// After the instruction, two pairs of push and pop that nothing
    /// reaches, pushing `first` and `second`.
    Flower { first: u8, second: u8 },
}

/// Whether a rule is one that the given instruction can be written under.
pub open spec fn applies(rewrite: Rewrite, op: Opcode) -> bool {
    match rewrite {
        Rewrite::Passthrough => true,
        Rewrite::Substitution => op == Opcode::ADD,
        Rewrite::FalseBranch { .. } => op == Opcode::JUMPI,
        Rewrite::Flower { .. } => op == Opcode::STOP || op == Opcode::RETURN,
    }
}

/// The bytes that an instruction is written as under a rule.
pub open spec fn written(op: Opcode, rewrite: Rewrite) -> Seq<u8> {
    match rewrite {
        Rewrite::Passthrough => seq![byte_of(op)],
        Rewrite::Substitution => seq![0x60u8, 0x01u8, 0x01u8, 0x60u8, 0x01u8, 0x01u8],
        Rewrite::FalseBranch { filler } => seq![byte_of(op), 0x5Bu8, filler, 0x50u8, 0x00u8],
        Rewrite::Flower { first, second } => seq![
            byte_of(op),
            0x60u8,
            first,
            0x50u8,
            0x60u8,
            second,
            0x50u8,
        ],
    }
}

/// The rule drawn for an instruction in a given state of the generator, and
/// the state after the draws. An addition is substituted one time in two; a
/// conditional jump gets a false branch two times in five; a halt or a
/// return gets flower instructions three times in ten. The yes-or-no draw
/// comes first, then each filler byte, the first of two before the second.
pub open spec fn chosen(op: Opcode, state: StreamState) -> (Rewrite, StreamState) {
    match op {
        Opcode::ADD => {
            let rule = if gate_drawn(state, 1, 2) {
                Rewrite::Substitution
            } else {
                Rewrite::Passthrough
            };
            (rule, state.after_gate(1, 2))
        },
        Opcode::JUMPI => {
            let gated = state.after_gate(2, 5);
            if gate_drawn(state, 2, 5) {
                (Rewrite::FalseBranch { filler: byte_drawn(gated) }, gated.after_byte())
            } else {
                (Rewrite::Passthrough, gated)
            }
        },
        Opcode::STOP | Opcode::RETURN => {
            let gated = state.after_gate(3, 10);
            if gate_drawn(state, 3, 10) {
                let first = byte_drawn(gated);
                let second = byte_drawn(gated.after_byte());
                (Rewrite::Flower { first, second }, gated.after_byte().after_byte())
            } else {
                (Rewrite::Passthrough, gated)
            }
        },
        Opcode::JUMPDEST | Opcode::Other(_) => (Rewrite::Passthrough, state),
    }
}

/// The bytes that a sequence of instructions is rewritten to when the rules
/// are drawn in order from a generator in the given state, and the state
/// after the last draw.
pub open spec fn rewritten(ops: Seq<Opcode>, state: StreamState) -> (Seq<u8>, StreamState)
    decreases ops.len(),
{
    if ops.len() == 0 {
        (Seq::empty(), state)
    } else {
        let (bytes, middle) = rewritten(ops.drop_last(), state);
        let (rule, end) = chosen(ops.last(), middle);
        (bytes + written(ops.last(), rule), end)
    }
}

/// The rule that is drawn for an instruction is one that applies to it.
pub proof fn lemma_chosen_applies(op: Opcode, state: StreamState)
    ensures
        applies(chosen(op, state).0, op),
{
}

/// Under a rule that applies to it, an instruction is written as at least
/// its own byte.
pub proof fn lemma_written_keeps_byte(op: Opcode, rewrite: Rewrite)
    requires
        applies(rewrite, op),
    ensures
        written(op, rewrite).len() >= 1,
        written(op, rewrite).contains(byte_of(op)),
{
    let bytes = written(op, rewrite);
    match rewrite {
        Rewrite::Substitution => {
            assert(bytes[1] == byte_of(op));
        },
        _ => {
            assert(bytes[0] == byte_of(op));
        },
    }
}

/// Rewriting drops nothing: every byte of the instructions occurs in what
/// they are rewritten to at least as often, and the result is no shorter.
pub proof fn lemma_rewritten_keeps_bytes(ops: Seq<Opcode>, state: StreamState)
    ensures
        bytes_of(ops).to_multiset().subset_of(rewritten(ops, state).0.to_multiset()),
        rewritten(ops, state).0.len() >= ops.len(),
    decreases ops.len(),
{
    broadcast use vstd::multiset::group_multiset_axioms;

    if ops.len() == 0 {
        vstd::seq_lib::to_multiset_len(bytes_of(ops));
        assert(bytes_of(ops).to_multiset() =~= Multiset::<u8>::empty());
    } else {
        let head = ops.drop_last();
        let op = ops.last();
        lemma_rewritten_keeps_bytes(head, state);
        let (bytes, middle) = rewritten(head, state);
        let rule = chosen(op, middle).0;
        let tail = written(op, rule);
        lemma_chosen_applies(op, middle);
        lemma_written_keeps_byte(op, rule);
        assert(bytes_of(ops) =~= bytes_of(head).push(byte_of(op)));
        vstd::seq_lib::to_multiset_build(bytes_of(head), byte_of(op));
        vstd::seq_lib::lemma_multiset_commutative(bytes, tail);
        vstd::seq_lib::to_multiset_contains(tail, byte_of(op));
    }
}

/// Appends to `out` the bytes of `op` under the rule `rewrite`.
pub fn write_out(op: Opcode, rewrite: Rewrite, out: &mut Vec<u8>)
    ensures
        final(out)@ == old(out)@ + written(op, rewrite),
{
    match rewrite {
        Rewrite::Passthrough => {
            out.push(op.to_byte());
        },
        Rewrite::Substitution => {
            out.push(0x60);
            out.push(0x01);
            out.push(0x01);
            out.push(0x60);
            out.push(0x01);
            out.push(0x01);
        },
        Rewrite::FalseBranch { filler } => {
            out.push(op.to_byte());
            out.push(0x5B);
            out.push(filler);
            out.push(0x50);
            out.push(0x00);
        },
        Rewrite::Flower { first, second } => {
            out.push(op.to_byte());
            out.push(0x60);
            out.push(first);
            out.push(0x50);
            out.push(0x60);
            out.push(second);
            out.push(0x50);
        },
    }
    assert(out@ =~= old(out)@ + written(op, rewrite));
}

/// Draws the rule for `op` from `stream`.
pub fn draw_rule(op: Opcode, stream: &mut Stream) -> (rewrite: Rewrite)
    ensures
        rewrite == chosen(op, old(stream)@).0,
        final(stream)@ == chosen(op, old(stream)@).1,
        applies(rewrite, op),
{
    match op {
        Opcode::ADD => {
            if stream.next_bool(1, 2) {
                Rewrite::Substitution
            } else {
                Rewrite::Passthrough
            }
        },
        Opcode::JUMPI => {
            if stream.next_bool(2, 5) {
                let filler = stream.next_byte();
                Rewrite::FalseBranch { filler }
            } else {
                Rewrite::Passthrough
            }
        },
        Opcode::STOP | Opcode::RETURN => {
            if stream.next_bool(3, 10) {
                let first = stream.next_byte();
                let second = stream.next_byte();
                Rewrite::Flower { first, second }
            } else {
                Rewrite::Passthrough
            }
        },
        Opcode::JUMPDEST | Opcode::Other(_) => Rewrite::Passthrough,
    }
}

/// Rewrites the instructions `ops` in order, drawing each rule from
/// `stream`, and appends the bytes to `out`.
pub fn rewrite(ops: &Vec<Opcode>, stream: &mut Stream, out: &mut Vec<u8>)
    ensures
        final(out)@ == old(out)@ + rewritten(ops@, old(stream)@).0,
        final(stream)@ == rewritten(ops@, old(stream)@).1,
{
    let ghost start = stream@;
    let ghost before = out@;
    let mut i: usize = 0;
    proof {
        assert(ops@.take(0) =~= Seq::<Opcode>::empty());
        assert(out@ =~= before + rewritten(ops@.take(0), start).0);
    }
    while i < ops.len()
        invariant
            i <= ops.len(),
            out@ == before + rewritten(ops@.take(i as int), start).0,
            stream@ == rewritten(ops@.take(i as int), start).1,
        decreases ops.len() - i,
    {
        let op = ops[i];
        proof {
            let next = ops@.take(i + 1);
            assert(next.drop_last() =~= ops@.take(i as int));
            assert(next.last() == op);
        }
        let rule = draw_rule(op, stream);
        write_out(op, rule, out);
        proof {
            let head = rewritten(ops@.take(i as int), start).0;
            assert(before + head + written(op, rule) =~= before + (head + written(op, rule)));
        }
        i += 1;
    }
    proof {
        assert(ops@.take(i as int) =~= ops@);
    }
}

} // verus!
