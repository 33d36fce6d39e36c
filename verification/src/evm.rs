//! Instructions, basic blocks, and the segmentation of a byte stream into
//! basic blocks.

use std::collections::HashSet;
use vstd::multiset::Multiset;
use vstd::prelude::*;

verus! {

/// One instruction of the byte stream. Five byte values carry a meaning of
/// their own; every other byte is kept as it is.
#[derive(Debug, PartialEq, Eq, Clone, Copy, Structural)]
pub enum Opcode {
    /// Addition (`0x01`).
    ADD,
    /// Conditional jump (`0x57`).
    JUMPI,
    /// Jump destination (`0x5B`).
    JUMPDEST,
    /// Halt (`0x00`).
    STOP,
    /// Return from execution (`0xF3`).
    RETURN,
    /// Any other instruction, with its byte.
    Other(u8),
}

/// The instruction that a byte stands for.
pub open spec fn opcode_of(byte: u8) -> Opcode {
    if byte == 0x01 {
        Opcode::ADD
    } else if byte == 0x57 {
        Opcode::JUMPI
    } else if byte == 0x5B {
        Opcode::JUMPDEST
    } else if byte == 0x00 {
        Opcode::STOP
    } else if byte == 0xF3 {
        Opcode::RETURN
    } else {
        Opcode::Other(byte)
    }
}

/// The byte that an instruction is written as.
pub open spec fn byte_of(op: Opcode) -> u8 {
    match op {
        Opcode::ADD => 0x01,
        Opcode::JUMPI => 0x57,
        Opcode::JUMPDEST => 0x5B,
        Opcode::STOP => 0x00,
        Opcode::RETURN => 0xF3,
        Opcode::Other(byte) => byte,
    }
}

/// Whether an instruction closes the basic block it stands in.
pub open spec fn ends_block(op: Opcode) -> bool {
    op == Opcode::JUMPI || op == Opcode::JUMPDEST || op == Opcode::STOP || op == Opcode::RETURN
}

impl Opcode {
    /// Classifies one byte.
    pub fn from_byte(byte: u8) -> (op: Opcode)
        ensures
            op == opcode_of(byte),
    {
        if byte == 0x01 {
            Opcode::ADD
        } else if byte == 0x57 {
            Opcode::JUMPI
        } else if byte == 0x5B {
            Opcode::JUMPDEST
        } else if byte == 0x00 {
            Opcode::STOP
        } else if byte == 0xF3 {
            Opcode::RETURN
        } else {
            Opcode::Other(byte)
        }
    }

    /// The byte this instruction is written as.
    pub fn to_byte(self) -> (byte: u8)
        ensures
            byte == byte_of(self),
    {
        match self {
            Opcode::ADD => 0x01,
            Opcode::JUMPI => 0x57,
            Opcode::JUMPDEST => 0x5B,
            Opcode::STOP => 0x00,
            Opcode::RETURN => 0xF3,
            Opcode::Other(byte) => byte,
        }
    }

    /// Whether this instruction closes its basic block.
    pub fn is_block_end(self) -> (end: bool)
        ensures
            end == ends_block(self),
    {
        match self {
            Opcode::JUMPI | Opcode::JUMPDEST | Opcode::STOP | Opcode::RETURN => true,
            _ => false,
        }
    }
}

/// Classification loses nothing: the byte can be read back from the
/// instruction.
pub proof fn lemma_classification_is_lossless(byte: u8)
    ensures
        byte_of(opcode_of(byte)) == byte,
{
}

/// A basic block: instructions that run one after the other, the last of
/// which may pass control elsewhere.
#[derive(Debug)]
pub struct BasicBlock {
    /// The instructions of the block, in order.
    pub opcodes: Vec<Opcode>,
}

impl View for BasicBlock {
    type V = Seq<Opcode>;

    open spec fn view(&self) -> Seq<Opcode> {
        self.opcodes@
    }
}

impl Default for BasicBlock {
    /// The block without instructions.
    fn default() -> (block: BasicBlock)
        ensures
            block@ == Seq::<Opcode>::empty(),
    {
        BasicBlock { opcodes: Vec::new() }
    }
}

/// The instruction sequences of a list of blocks.
pub open spec fn instructions(blocks: Seq<BasicBlock>) -> Seq<Seq<Opcode>> {
    blocks.map_values(|block: BasicBlock| block@)
}

/// The instructions that a byte stream stands for, byte by byte.
pub open spec fn opcodes_of(bytes: Seq<u8>) -> Seq<Opcode> {
    bytes.map_values(|byte: u8| opcode_of(byte))
}

/// The bytes that a sequence of instructions is written as.
pub open spec fn bytes_of(ops: Seq<Opcode>) -> Seq<u8> {
    ops.map_values(|op: Opcode| byte_of(op))
}

/// What it means for `blocks` to be the basic blocks of `ops`: put end to
/// end they are `ops`; none is empty; an instruction that ends a block stands
/// nowhere but at the end of one; and every block but the last ends in such
/// an instruction.
pub open spec fn is_segmentation(blocks: Seq<Seq<Opcode>>, ops: Seq<Opcode>) -> bool {
    &&& blocks.flatten() == ops
    &&& forall|i: int| 0 <= i < blocks.len() ==> (#[trigger] blocks[i]).len() > 0
    &&& forall|i: int, j: int|
        0 <= i < blocks.len() && 0 <= j < blocks[i].len() - 1 ==> !ends_block(
            #[trigger] blocks[i][j],
        )
    &&& forall|i: int| 0 <= i < blocks.len() - 1 ==> ends_block((#[trigger] blocks[i]).last())
}

/// The basic blocks of `ops`, built up instruction by instruction: an
/// instruction joins the last block unless that block is already closed, in
/// which case it opens a new one.
pub open spec fn segmented(ops: Seq<Opcode>) -> Seq<Seq<Opcode>>
    decreases ops.len(),
{
    if ops.len() == 0 {
        Seq::empty()
    } else {
        let before = segmented(ops.drop_last());
        if before.len() > 0 && !ends_block(before.last().last()) {
            before.drop_last().push(before.last().push(ops.last()))
        } else {
            before.push(seq![ops.last()])
        }
    }
}

/// The closed blocks, followed by the block still being filled if it holds
/// anything.
spec fn with_open_block(closed: Seq<Seq<Opcode>>, open: Seq<Opcode>) -> Seq<Seq<Opcode>> {
    if open.len() > 0 {
        closed.push(open)
    } else {
        closed
    }
}

/// `segmented` yields a segmentation.
pub proof fn lemma_segmented_is_segmentation(ops: Seq<Opcode>)
    ensures
        is_segmentation(segmented(ops), ops),
    decreases ops.len(),
{
    if ops.len() == 0 {
        assert(segmented(ops).flatten() =~= ops);
    } else {
        let head = ops.drop_last();
        let before = segmented(head);
        lemma_segmented_is_segmentation(head);
        let after = segmented(ops);
        assert(ops =~= head.push(ops.last()));
        if before.len() > 0 && !ends_block(before.last().last()) {
            let grown = before.last().push(ops.last());
            assert(after == before.drop_last().push(grown));
            assert(before =~= before.drop_last().push(before.last()));
            before.drop_last().lemma_flatten_push(before.last());
            before.drop_last().lemma_flatten_push(grown);
            assert(after.flatten() =~= ops);
            assert forall|i: int, j: int|
                0 <= i < after.len() && 0 <= j < after[i].len() - 1 implies !ends_block(
                #[trigger] after[i][j],
            ) by {
                if i < after.len() - 1 {
                    assert(after[i] == before[i]);
                } else {
                    assert(after[i] == grown);
                    if j < grown.len() - 2 {
                        assert(grown[j] == before[i][j]);
                    } else {
                        assert(grown[j] == before.last().last());
                    }
                }
            }
            assert forall|i: int| 0 <= i < after.len() - 1 implies ends_block(
                (#[trigger] after[i]).last(),
            ) by {
                assert(after[i] == before[i]);
            }
            assert forall|i: int| 0 <= i < after.len() implies (#[trigger] after[i]).len() > 0 by {
                if i < after.len() - 1 {
                    assert(after[i] == before[i]);
                }
            }
        } else {
            let single = seq![ops.last()];
            assert(after == before.push(single));
            before.lemma_flatten_push(single);
            assert(after.flatten() =~= ops);
            assert forall|i: int, j: int|
                0 <= i < after.len() && 0 <= j < after[i].len() - 1 implies !ends_block(
                #[trigger] after[i][j],
            ) by {
                if i < before.len() {
                    assert(after[i] == before[i]);
                }
            }
            assert forall|i: int| 0 <= i < after.len() - 1 implies ends_block(
                (#[trigger] after[i]).last(),
            ) by {
                assert(after[i] == before[i]);
            }
            assert forall|i: int| 0 <= i < after.len() implies (#[trigger] after[i]).len() > 0 by {
                if i < before.len() {
                    assert(after[i] == before[i]);
                }
            }
        }
    }
}

/// A sequence of instructions has one segmentation only.
pub proof fn lemma_segmentation_is_unique(blocks: Seq<Seq<Opcode>>, ops: Seq<Opcode>)
    requires
        is_segmentation(blocks, ops),
    ensures
        blocks == segmented(ops),
    decreases ops.len(),
{
    if blocks.len() == 0 {
        assert(blocks =~= segmented(ops));
    } else {
        let last = blocks.last();
        let front = blocks.drop_last();
        assert(blocks =~= front.push(last));
        front.lemma_flatten_push(last);
        assert(ops == front.flatten() + last);
        assert(last.len() > 0);
        let head = ops.drop_last();
        if last.len() == 1 {
            assert(head =~= front.flatten());
            assert forall|i: int| 0 <= i < front.len() implies (#[trigger] front[i]).len() > 0 by {
                assert(front[i] == blocks[i]);
            }
            assert forall|i: int, j: int|
                0 <= i < front.len() && 0 <= j < front[i].len() - 1 implies !ends_block(
                #[trigger] front[i][j],
            ) by {
                assert(front[i] == blocks[i]);
            }
            assert forall|i: int| 0 <= i < front.len() - 1 implies ends_block(
                (#[trigger] front[i]).last(),
            ) by {
                assert(front[i] == blocks[i]);
            }
            lemma_segmentation_is_unique(front, head);
            if front.len() > 0 {
                assert(front.last() == blocks[front.len() - 1]);
            }
            assert(last =~= seq![ops.last()]);
        } else {
            let shorter = front.push(last.drop_last());
            front.lemma_flatten_push(last.drop_last());
            assert(head =~= shorter.flatten());
            assert forall|i: int| 0 <= i < shorter.len() implies (#[trigger] shorter[i]).len()
                > 0 by {
                if i < front.len() {
                    assert(shorter[i] == blocks[i]);
                }
            }
            assert forall|i: int, j: int|
                0 <= i < shorter.len() && 0 <= j < shorter[i].len() - 1 implies !ends_block(
                #[trigger] shorter[i][j],
            ) by {
                if i < front.len() {
                    assert(shorter[i] == blocks[i]);
                } else {
                    assert(shorter[i][j] == blocks[i][j]);
                }
            }
            assert forall|i: int| 0 <= i < shorter.len() - 1 implies ends_block(
                (#[trigger] shorter[i]).last(),
            ) by {
                assert(shorter[i] == blocks[i]);
            }
            lemma_segmentation_is_unique(shorter, head);
            assert(shorter.last().last() == blocks[blocks.len() - 1][last.len() - 2]);
            assert(shorter.drop_last() =~= front);
            assert(last.drop_last().push(ops.last()) =~= last);
        }
    }
}

/// Cuts a byte stream into basic blocks. Every byte becomes one
/// instruction; a block is closed after `JUMPI`, `JUMPDEST`, `STOP` or
/// `RETURN`, and what follows the last such instruction forms a final block.
pub fn parse_bytecode(bytecode: &[u8]) -> (blocks: Vec<BasicBlock>)
    ensures
        instructions(blocks@) == segmented(opcodes_of(bytecode@)),
        is_segmentation(instructions(blocks@), opcodes_of(bytecode@)),
        instructions(blocks@).flatten().len() == bytecode@.len(),
{
    let ghost ops = opcodes_of(bytecode@);
    let mut blocks: Vec<BasicBlock> = Vec::new();
    let mut current = BasicBlock { opcodes: Vec::new() };
    let mut i: usize = 0;
    proof {
        assert(ops.take(0) =~= Seq::<Opcode>::empty());
        assert(instructions(blocks@) =~= Seq::<Seq<Opcode>>::empty());
    }
    while i < bytecode.len()
        invariant
            i <= bytecode.len(),
            ops == opcodes_of(bytecode@),
            with_open_block(instructions(blocks@), current@) == segmented(ops.take(i as int)),
            forall|k: int|
                0 <= k < blocks@.len() ==> (#[trigger] blocks@[k])@.len() > 0 && ends_block(
                    blocks@[k]@.last(),
                ),
            forall|j: int| 0 <= j < current@.len() ==> !ends_block(#[trigger] current@[j]),
        decreases bytecode.len() - i,
    {
        let op = Opcode::from_byte(bytecode[i]);
        let ghost closed = instructions(blocks@);
        let ghost open = current@;
        proof {
            let next = ops.take(i + 1);
            assert(next.drop_last() =~= ops.take(i as int));
            assert(next.last() == op);
            let before = segmented(next.drop_last());
            if open.len() > 0 {
                assert(before.last() == open);
                assert(!ends_block(open[open.len() - 1]));
                assert(before.drop_last() =~= closed);
            } else {
                assert(before == closed);
                if closed.len() > 0 {
                    assert(closed.last() == blocks@[closed.len() - 1]@);
                }
                assert(open.push(op) =~= seq![op]);
            }
            assert(segmented(next) == closed.push(open.push(op)));
        }
        current.opcodes.push(op);
        if op.is_block_end() {
            blocks.push(current);
            current = BasicBlock::default();
            proof {
                assert(instructions(blocks@) =~= closed.push(open.push(op)));
            }
        }
        i += 1;
    }
    if current.opcodes.len() > 0 {
        let ghost closed = instructions(blocks@);
        let ghost open = current@;
        blocks.push(current);
        proof {
            assert(instructions(blocks@) =~= closed.push(open));
        }
    }
    proof {
        assert(ops.take(i as int) =~= ops);
        lemma_segmented_is_segmentation(ops);
    }
    blocks
}

/// The number of blocks that hold a conditional jump.
pub open spec fn jumpi_blocks(blocks: Seq<Seq<Opcode>>) -> nat
    decreases blocks.len(),
{
    if blocks.len() == 0 {
        0
    } else {
        let last: nat = if blocks.last().contains(Opcode::JUMPI) {
            1
        } else {
            0
        };
        jumpi_blocks(blocks.drop_last()) + last
    }
}

/// Whether some block holds the instruction `op`.
pub open spec fn has_block_with(blocks: Seq<Seq<Opcode>>, op: Opcode) -> bool {
    exists|i: int| 0 <= i < blocks.len() && (#[trigger] blocks[i]).contains(op)
}

/// The complexity of the control flow of `blocks`: how many of them hold a
/// conditional jump.
pub fn compute_cfg_complexity(blocks: &[BasicBlock]) -> (complexity: usize)
    ensures
        complexity == jumpi_blocks(instructions(blocks@)),
{
    let ghost all = instructions(blocks@);
    let mut complexity: usize = 0;
    let mut i: usize = 0;
    proof {
        assert(all.take(0) =~= Seq::<Seq<Opcode>>::empty());
    }
    while i < blocks.len()
        invariant
            i <= blocks.len(),
            all == instructions(blocks@),
            complexity == jumpi_blocks(all.take(i as int)),
            complexity <= i,
        decreases blocks.len() - i,
    {
        let block = &blocks[i];
        let mut found = false;
        let mut j: usize = 0;
        while j < block.opcodes.len()
            invariant
                j <= block@.len(),
                found <==> exists|k: int| 0 <= k < j && block@[k] == Opcode::JUMPI,
            decreases block@.len() - j,
        {
            if block.opcodes[j] == Opcode::JUMPI {
                found = true;
            }
            j += 1;
        }
        proof {
            let next = all.take(i + 1);
            assert(next.drop_last() =~= all.take(i as int));
            assert(next.last() == block@);
        }
        if found {
            complexity += 1;
        }
        i += 1;
    }
    proof {
        assert(all.take(i as int) =~= all);
    }
    complexity
}

/// The number of distinct byte values in `bytecode`.
pub fn count_unique_opcodes(bytecode: &[u8]) -> (unique: usize)
    ensures
        unique == bytecode@.to_set().len(),
{
    broadcast use vstd::std_specs::hash::group_hash_axioms;

    let mut seen: HashSet<u8> = HashSet::new();
    let mut i: usize = 0;
    proof {
        assert(bytecode@.take(0).to_set() =~= Set::<u8>::empty());
    }
    while i < bytecode.len()
        invariant
            i <= bytecode.len(),
            seen@ == bytecode@.take(i as int).to_set(),
        decreases bytecode.len() - i,
    {
        proof {
            bytecode@.take(i as int).lemma_push_to_set_commute(bytecode@[i as int]);
            assert(bytecode@.take(i + 1) =~= bytecode@.take(i as int).push(bytecode@[i as int]));
        }
        seen.insert(bytecode[i]);
        i += 1;
    }
    proof {
        assert(bytecode@.take(i as int) =~= bytecode@);
    }
    seen.len()
}

/// A conditional jump closes its block, so the blocks that hold one are as
/// many as the conditional jumps themselves.
pub proof fn lemma_jumpi_blocks_of_segmented(ops: Seq<Opcode>)
    ensures
        jumpi_blocks(segmented(ops)) == ops.to_multiset().count(Opcode::JUMPI),
    decreases ops.len(),
{
    broadcast use vstd::multiset::group_multiset_axioms;

    if ops.len() == 0 {
        assert(ops.to_multiset() =~= Multiset::<Opcode>::empty()) by {
            vstd::seq_lib::to_multiset_len(ops);
        }
    } else {
        let head = ops.drop_last();
        let x = ops.last();
        let before = segmented(head);
        let after = segmented(ops);
        lemma_jumpi_blocks_of_segmented(head);
        lemma_segmented_is_segmentation(head);
        assert(ops =~= head.push(x));
        vstd::seq_lib::to_multiset_build(head, x);
        if before.len() > 0 && !ends_block(before.last().last()) {
            let open = before.last();
            let grown = open.push(x);
            assert(after.drop_last() =~= before.drop_last());
            assert(after.last() == grown);
            assert(!open.contains(Opcode::JUMPI)) by {
                if open.contains(Opcode::JUMPI) {
                    let k = choose|k: int| 0 <= k < open.len() && open[k] == Opcode::JUMPI;
                    assert(before[before.len() - 1][k] == Opcode::JUMPI);
                    assert(ends_block(open[k]));
                }
            }
            if x == Opcode::JUMPI {
                assert(grown[grown.len() - 1] == Opcode::JUMPI);
            } else if grown.contains(Opcode::JUMPI) {
                let k = choose|k: int| 0 <= k < grown.len() && grown[k] == Opcode::JUMPI;
                assert(open[k] == Opcode::JUMPI);
            }
        } else {
            let single = seq![x];
            assert(after.drop_last() =~= before);
            assert(after.last() == single);
            if x == Opcode::JUMPI {
                assert(single[0] == Opcode::JUMPI);
            }
        }
    }
}

/// Some block holds an instruction exactly when the blocks put end to end
/// hold it.
pub proof fn lemma_has_block_with(blocks: Seq<Seq<Opcode>>, op: Opcode)
    ensures
        has_block_with(blocks, op) <==> blocks.flatten().contains(op),
    decreases blocks.len(),
{
    if blocks.len() == 0 {
        assert(blocks.flatten() =~= Seq::<Opcode>::empty());
    } else {
        let front = blocks.drop_last();
        let last = blocks.last();
        assert(blocks =~= front.push(last));
        front.lemma_flatten_push(last);
        lemma_has_block_with(front, op);
        let flat = blocks.flatten();
        assert(flat == front.flatten() + last);
        if has_block_with(blocks, op) {
            let i = choose|i: int| 0 <= i < blocks.len() && (#[trigger] blocks[i]).contains(op);
            if i < front.len() {
                assert(front[i] == blocks[i]);
                assert(has_block_with(front, op));
                let k = choose|k: int|
                    0 <= k < front.flatten().len() && front.flatten()[k] == op;
                assert(flat[k] == op);
            } else {
                let k = choose|k: int| 0 <= k < last.len() && last[k] == op;
                assert(flat[front.flatten().len() + k] == op);
            }
        }
        if flat.contains(op) {
            let k = choose|k: int| 0 <= k < flat.len() && flat[k] == op;
            if k < front.flatten().len() {
                assert(front.flatten()[k] == op);
                assert(has_block_with(front, op));
                let i = choose|i: int| 0 <= i < front.len() && (#[trigger] front[i]).contains(op);
                assert(blocks[i] == front[i]);
            } else {
                assert(last[k - front.flatten().len()] == op);
                assert(blocks[blocks.len() - 1].contains(op));
            }
        }
    }
}

/// An instruction that some byte stands for occurs among the instructions
/// of a byte stream as often as its byte occurs in the stream.
pub proof fn lemma_opcode_count(bytes: Seq<u8>, op: Opcode)
    requires
        op == opcode_of(byte_of(op)),
    ensures
        opcodes_of(bytes).to_multiset().count(op) == bytes.to_multiset().count(byte_of(op)),
    decreases bytes.len(),
{
    broadcast use vstd::multiset::group_multiset_axioms;

    if bytes.len() == 0 {
        vstd::seq_lib::to_multiset_len(bytes);
        vstd::seq_lib::to_multiset_len(opcodes_of(bytes));
        assert(bytes.to_multiset() =~= Multiset::<u8>::empty());
        assert(opcodes_of(bytes).to_multiset() =~= Multiset::<Opcode>::empty());
    } else {
        let head = bytes.drop_last();
        let b = bytes.last();
        lemma_opcode_count(head, op);
        assert(bytes =~= head.push(b));
        assert(opcodes_of(bytes) =~= opcodes_of(head).push(opcode_of(b)));
        vstd::seq_lib::to_multiset_build(head, b);
        vstd::seq_lib::to_multiset_build(opcodes_of(head), opcode_of(b));
    }
}

/// Written out again, the instructions of a byte stream give the stream.
pub proof fn lemma_bytes_of_opcodes(bytes: Seq<u8>)
    ensures
        bytes_of(opcodes_of(bytes)) == bytes,
{
    assert(bytes_of(opcodes_of(bytes)) =~= bytes);
}

} // verus!
