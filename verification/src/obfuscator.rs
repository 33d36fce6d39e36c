//! The obfuscation of a byte stream, block by block.
//!
//! For each block a gate is drawn that decides whether the block is
//! reordered before it is rewritten. How many exchanges a reordering makes
//! is not decided here: a pass over the blocks pauses at a block that is to
//! be reordered, names the length of that block, and goes on once it is
//! given the number. One generator serves the whole pass, so what a block
//! draws depends on what the blocks before it drew.

use crate::digest::{chaotic_bits_of, chaotic_seed_bits};
use crate::evm::{
    byte_of, bytes_of, has_block_with, instructions, jumpi_blocks, lemma_bytes_of_opcodes,
    lemma_has_block_with, lemma_jumpi_blocks_of_segmented, lemma_opcode_count,
    lemma_segmented_is_segmentation, opcode_of, opcodes_of, parse_bytecode, segmented, BasicBlock,
    Opcode,
};
use crate::reorder::{reorder, reordered};
use crate::rewrite::{lemma_rewritten_keeps_bytes, rewrite, rewritten};
use crate::stream::{gate_drawn, Stream, StreamState};
use vstd::prelude::*;
use vstd::slice::slice_to_vec;

verus! {

/// How far a pass over the blocks has come when it stops.
pub enum Outcome {
    /// The block at `block` is to be reordered and waits for its number of
    /// exchanges. `emitted` holds what the blocks before it were rewritten
    /// to, and `stream` is the generator's state after the block's gate.
    Paused { block: nat, emitted: Seq<u8>, stream: StreamState },
    /// Every block is rewritten. `output` holds the bytes, and `stream` is
    /// the generator's state after the last draw.
    Finished { output: Seq<u8>, stream: StreamState },
}

impl Outcome {
    /// The generator's state at this point.
    pub open spec fn stream(self) -> StreamState {
        match self {
            Outcome::Paused { stream, .. } => stream,
            Outcome::Finished { stream, .. } => stream,
        }
    }
}

/// The pass from the block at `block` on, with `emitted` written so far and
/// the generator in the state `stream`. For each block a gate is drawn that
/// comes up true three times in ten. On true the pass pauses at the block;
/// on false the block is rewritten as it is and the pass moves on.
pub open spec fn run_from(
    blocks: Seq<Seq<Opcode>>,
    block: nat,
    emitted: Seq<u8>,
    stream: StreamState,
) -> Outcome
    decreases blocks.len() - block,
{
    if block >= blocks.len() {
        Outcome::Finished { output: emitted, stream }
    } else if gate_drawn(stream, 3, 10) {
        Outcome::Paused { block, emitted, stream: stream.after_gate(3, 10) }
    } else {
        let (bytes, end) = rewritten(blocks[block as int], stream.after_gate(3, 10));
        run_from(blocks, block + 1, emitted + bytes, end)
    }
}

/// The pass that resumes at a paused block: the block is reordered by
/// `swaps` exchanges and rewritten, and the pass moves on.
pub open spec fn resumed(
    blocks: Seq<Seq<Opcode>>,
    block: nat,
    emitted: Seq<u8>,
    stream: StreamState,
    swaps: nat,
) -> Outcome {
    let (arranged, middle) = reordered(blocks[block as int], swaps, stream);
    let (bytes, end) = rewritten(arranged, middle);
    run_from(blocks, block + 1, emitted + bytes, end)
}

/// Where a pass over `blocks` stands that began with the generator in the
/// state `origin` and has been given the numbers of exchanges `swaps`, one
/// at each pause, in this order.
pub open spec fn driven(blocks: Seq<Seq<Opcode>>, origin: StreamState, swaps: Seq<nat>) -> Outcome
    decreases swaps.len(),
{
    if swaps.len() == 0 {
        run_from(blocks, 0, Seq::empty(), origin)
    } else {
        match driven(blocks, origin, swaps.drop_last()) {
            Outcome::Paused { block, emitted, stream } => resumed(
                blocks,
                block,
                emitted,
                stream,
                swaps.last(),
            ),
            Outcome::Finished { output, stream } => Outcome::Finished { output, stream },
        }
    }
}

/// What holds between the input of a finished pass and its output, whatever
/// was drawn: every byte of the input occurs in the output at least as
/// often; the output is no shorter; its blocks that hold a conditional jump
/// are no fewer; and an instruction found in a block of the input is found
/// in a block of the output.
pub open spec fn covers(input: Seq<u8>, output: Seq<u8>) -> bool {
    &&& input.to_multiset().subset_of(output.to_multiset())
    &&& output.len() >= input.len()
    &&& jumpi_blocks(segmented(opcodes_of(output))) >= jumpi_blocks(segmented(opcodes_of(input)))
    &&& forall|op: Opcode| #[trigger]
        has_block_with(segmented(opcodes_of(input)), op) ==> has_block_with(
            segmented(opcodes_of(output)),
            op,
        )
}

/// `emitted` holds every byte of the first `count` blocks at least as
/// often as they do, and is no shorter than they are together.
spec fn prefix_kept(blocks: Seq<Seq<Opcode>>, count: nat, emitted: Seq<u8>) -> bool {
    &&& count <= blocks.len()
    &&& bytes_of(blocks.take(count as int).flatten()).to_multiset().subset_of(
        emitted.to_multiset(),
    )
    &&& emitted.len() >= blocks.take(count as int).flatten().len()
}

/// What an outcome holds keeps the blocks it has passed.
spec fn outcome_kept(blocks: Seq<Seq<Opcode>>, outcome: Outcome) -> bool {
    match outcome {
        Outcome::Paused { block, emitted, .. } => block < blocks.len() && prefix_kept(
            blocks,
            block,
            emitted,
        ),
        Outcome::Finished { output, .. } => prefix_kept(blocks, blocks.len(), output),
    }
}

proof fn lemma_nothing_kept(blocks: Seq<Seq<Opcode>>)
    ensures
        prefix_kept(blocks, 0, Seq::empty()),
{
    broadcast use vstd::multiset::group_multiset_axioms;

    let none = blocks.take(0);
    assert(none =~= Seq::<Seq<Opcode>>::empty());
    assert(bytes_of(none.flatten()) =~= Seq::<u8>::empty());
    vstd::seq_lib::to_multiset_len(bytes_of(none.flatten()));
}

proof fn lemma_next_block_kept(
    blocks: Seq<Seq<Opcode>>,
    count: nat,
    emitted: Seq<u8>,
    written: Seq<Opcode>,
    bytes: Seq<u8>,
)
    requires
        count < blocks.len(),
        prefix_kept(blocks, count, emitted),
        bytes_of(written).to_multiset() == bytes_of(blocks[count as int]).to_multiset(),
        written.len() == blocks[count as int].len(),
        bytes_of(written).to_multiset().subset_of(bytes.to_multiset()),
        bytes.len() >= written.len(),
    ensures
        prefix_kept(blocks, count + 1, emitted + bytes),
{
    broadcast use vstd::multiset::group_multiset_axioms;

    let passed = blocks.take(count as int);
    let next = blocks[count as int];
    assert(blocks.take(count as int + 1) =~= passed.push(next));
    passed.lemma_flatten_push(next);
    assert(bytes_of(passed.flatten() + next) =~= bytes_of(passed.flatten()) + bytes_of(next));
    vstd::seq_lib::lemma_multiset_commutative(bytes_of(passed.flatten()), bytes_of(next));
    vstd::seq_lib::lemma_multiset_commutative(emitted, bytes);
}

proof fn lemma_run_from_kept(
    blocks: Seq<Seq<Opcode>>,
    block: nat,
    emitted: Seq<u8>,
    stream: StreamState,
)
    requires
        prefix_kept(blocks, block, emitted),
    ensures
        outcome_kept(blocks, run_from(blocks, block, emitted, stream)),
    decreases blocks.len() - block,
{
    if block < blocks.len() && !gate_drawn(stream, 3, 10) {
        let ops = blocks[block as int];
        let (bytes, end) = rewritten(ops, stream.after_gate(3, 10));
        lemma_rewritten_keeps_bytes(ops, stream.after_gate(3, 10));
        lemma_next_block_kept(blocks, block, emitted, ops, bytes);
        lemma_run_from_kept(blocks, block + 1, emitted + bytes, end);
    }
}

proof fn lemma_kept_covers(input: Seq<u8>, output: Seq<u8>)
    requires
        prefix_kept(
            segmented(opcodes_of(input)),
            segmented(opcodes_of(input)).len(),
            output,
        ),
    ensures
        covers(input, output),
{
    broadcast use vstd::multiset::group_multiset_axioms;

    let ops = opcodes_of(input);
    let blocks = segmented(ops);
    let after = opcodes_of(output);
    lemma_segmented_is_segmentation(ops);
    lemma_segmented_is_segmentation(after);
    assert(blocks.take(blocks.len() as int) =~= blocks);
    lemma_bytes_of_opcodes(input);
    assert(input.to_multiset().subset_of(output.to_multiset()));
    lemma_jumpi_blocks_of_segmented(ops);
    lemma_jumpi_blocks_of_segmented(after);
    lemma_opcode_count(input, Opcode::JUMPI);
    lemma_opcode_count(output, Opcode::JUMPI);
    assert forall|op: Opcode| #[trigger] has_block_with(blocks, op) implies has_block_with(
        segmented(after),
        op,
    ) by {
        lemma_has_block_with(blocks, op);
        lemma_has_block_with(segmented(after), op);
        let k = choose|k: int| 0 <= k < ops.len() && ops[k] == op;
        assert(op == opcode_of(input[k]));
        assert(byte_of(op) == input[k]);
        assert(input.contains(byte_of(op)));
        vstd::seq_lib::to_multiset_contains(input, byte_of(op));
        vstd::seq_lib::to_multiset_contains(output, byte_of(op));
        let m = choose|m: int| 0 <= m < output.len() && output[m] == byte_of(op);
        assert(after[m] == op);
    }
}

/// What a call hands back to the one that drives the pass.
#[derive(Debug)]
pub enum Step {
    /// The pass pauses at a block of `block_len` instructions that is to be
    /// reordered: the number of exchanges is owed.
    AwaitingShuffleCount { block_len: usize },
    /// The pass is over, and `output` holds the obfuscated bytes.
    Done { output: Vec<u8> },
}

impl Step {
    /// Whether this is what a pass over `blocks` hands back at `outcome`.
    pub open spec fn reports(self, blocks: Seq<Seq<Opcode>>, outcome: Outcome) -> bool {
        match outcome {
            Outcome::Paused { block, .. } => self matches Step::AwaitingShuffleCount { block_len }
                && block_len == blocks[block as int].len(),
            Outcome::Finished { output, .. } => self matches Step::Done { output: bytes }
                && bytes@ == output,
        }
    }
}

/// An obfuscator for one byte stream, with the generator that its passes
/// draw from.
pub struct Obfuscator {
    bytecode: Vec<u8>,
    stream: Stream,
    chaotic_bits: u64,
    blocks: Vec<BasicBlock>,
    cursor: usize,
    emitted: Vec<u8>,
    awaiting: bool,
    origin: Ghost<StreamState>,
    supplied: Ghost<Seq<nat>>,
}

impl Obfuscator {
    /// The byte stream to obfuscate.
    pub closed spec fn bytecode(&self) -> Seq<u8> {
        self.bytecode@
    }

    /// The state of the generator.
    pub closed spec fn stream(&self) -> StreamState {
        self.stream@
    }

    /// The bits from which the chaotic sequence starts.
    pub closed spec fn seed_bits(&self) -> u64 {
        self.chaotic_bits
    }

    /// Whether a pass is paused at a block that waits for its number of
    /// exchanges.
    pub closed spec fn awaiting(&self) -> bool {
        self.awaiting
    }

    /// The state of the generator when the latest pass began.
    pub closed spec fn origin(&self) -> StreamState {
        self.origin@
    }

    /// The numbers of exchanges that the latest pass has been given.
    pub closed spec fn supplied(&self) -> Seq<nat> {
        self.supplied@
    }

    /// The basic blocks of the byte stream.
    pub open spec fn blocks(&self) -> Seq<Seq<Opcode>> {
        segmented(opcodes_of(self.bytecode()))
    }

    /// Where the latest pass stands.
    pub open spec fn standing(&self) -> Outcome {
        driven(self.blocks(), self.origin(), self.supplied())
    }

    /// Whether `step` is what the latest pass has come to, and the
    /// obfuscator is in the state that belongs to it.
    pub open spec fn came_to(&self, step: Step) -> bool {
        &&& step.reports(self.blocks(), self.standing())
        &&& self.stream() == self.standing().stream()
        &&& self.awaiting() == (self.standing() is Paused)
        &&& step matches Step::Done { output } ==> covers(self.bytecode(), output@)
    }

    /// The blocks are those of the byte stream.
    spec fn parsed(&self) -> bool {
        instructions(self.blocks@) == segmented(opcodes_of(self.bytecode@))
    }

    /// The obfuscator is in the state that `outcome` describes.
    spec fn settled(&self, outcome: Outcome) -> bool {
        match outcome {
            Outcome::Paused { block, emitted, stream } => {
                &&& self.awaiting
                &&& self.cursor == block
                &&& self.emitted@ == emitted
                &&& self.stream@ == stream
            },
            Outcome::Finished { stream, .. } => {
                &&& !self.awaiting
                &&& self.cursor == 0
                &&& self.emitted@.len() == 0
                &&& self.stream@ == stream
            },
        }
    }

    /// The invariant of an obfuscator: a paused pass works on the blocks
    /// of the byte stream and stands where the numbers it was given lead.
    pub closed spec fn wf(&self) -> bool {
        &&& self.awaiting ==> {
            &&& self.parsed()
            &&& self.settled(self.standing())
            &&& outcome_kept(self.blocks(), self.standing())
        }
        &&& !self.awaiting ==> self.cursor == 0 && self.emitted@.len() == 0
    }

    /// An obfuscator for `bytecode` whose generator is made from `seed`.
    pub fn new(bytecode: &[u8], seed: u64) -> (obfuscator: Obfuscator)
        ensures
            obfuscator.wf(),
            obfuscator.bytecode() == bytecode@,
            obfuscator.stream() == StreamState::fresh(seed),
            obfuscator.seed_bits() == chaotic_bits_of(seed),
            !obfuscator.awaiting(),
    {
        Obfuscator {
            bytecode: slice_to_vec(bytecode),
            stream: Stream::seeded(seed),
            chaotic_bits: chaotic_seed_bits(seed),
            blocks: Vec::new(),
            cursor: 0,
            emitted: Vec::new(),
            awaiting: false,
            origin: Ghost(StreamState::fresh(seed)),
            supplied: Ghost(Seq::empty()),
        }
    }

    /// The bits from which the chaotic sequence starts: the first eight
    /// bytes of the SHA-256 digest of the seed, as a little-endian word.
    pub fn chaotic_seed_bits(&self) -> (bits: u64)
        ensures
            bits == self.seed_bits(),
    {
        self.chaotic_bits
    }

    /// Begins a pass over the blocks, giving up any pass that is paused.
    /// The pass runs until a block is to be reordered or no block is left.
    /// The generator goes on from the state it is in.
    pub fn obfuscate(&mut self) -> (step: Step)
        requires
            old(self).wf(),
        ensures
            final(self).wf(),
            final(self).bytecode() == old(self).bytecode(),
            final(self).seed_bits() == old(self).seed_bits(),
            final(self).origin() == old(self).stream(),
            final(self).supplied() == Seq::<nat>::empty(),
            final(self).came_to(step),
            old(self).bytecode().len() == 0 ==> (step matches Step::Done { output }
                && output@.len() == 0),
    {
        self.blocks = parse_bytecode(self.bytecode.as_slice());
        self.cursor = 0;
        self.emitted = Vec::new();
        self.awaiting = false;
        self.origin = Ghost(self.stream@);
        self.supplied = Ghost(Seq::empty());
        proof {
            lemma_nothing_kept(self.blocks());
            assert(self.emitted@ =~= Seq::<u8>::empty());
            if self.bytecode@.len() == 0 {
                assert(opcodes_of(self.bytecode@) =~= Seq::<Opcode>::empty());
            }
        }
        self.advance()
    }

    /// Gives a paused pass the number of exchanges it waits for. The block
    /// is reordered and rewritten, and the pass runs on until a block is to
    /// be reordered or no block is left. Without a paused pass nothing is
    /// done and `None` is returned.
    pub fn resume(&mut self, shuffle_count: usize) -> (step: Option<Step>)
        requires
            old(self).wf(),
        ensures
            final(self).wf(),
            final(self).bytecode() == old(self).bytecode(),
            final(self).seed_bits() == old(self).seed_bits(),
            final(self).origin() == old(self).origin(),
            !old(self).awaiting() ==> {
                &&& step is None
                &&& !final(self).awaiting()
                &&& final(self).stream() == old(self).stream()
                &&& final(self).supplied() == old(self).supplied()
            },
            old(self).awaiting() ==> {
                &&& step matches Some(reached)
                &&& final(self).supplied() == old(self).supplied().push(shuffle_count as nat)
                &&& final(self).came_to(reached)
            },
    {
        if !self.awaiting {
            return None;
        }
        let ghost blocks = self.blocks();
        let ghost block = self.cursor as nat;
        let ghost before = self.emitted@;
        let ghost given = self.supplied@;
        let at = self.cursor;
        assert(at < self.blocks.len());
        let arranged = reorder(&self.blocks[at].opcodes, shuffle_count, &mut self.stream);
        let ghost middle = self.stream@;
        rewrite(&arranged, &mut self.stream, &mut self.emitted);
        proof {
            let bytes = rewritten(arranged@, middle).0;
            lemma_rewritten_keeps_bytes(arranged@, middle);
            lemma_next_block_kept(blocks, block, before, arranged@, bytes);
            assert(given.push(shuffle_count as nat).drop_last() =~= given);
        }
        self.cursor = at + 1;
        self.awaiting = false;
        self.supplied = Ghost(given.push(shuffle_count as nat));
        Some(self.advance())
    }

    /// Runs the pass on from the block in turn.
    fn advance(&mut self) -> (step: Step)
        requires
            old(self).parsed(),
            !old(self).awaiting,
            prefix_kept(old(self).blocks(), old(self).cursor as nat, old(self).emitted@),
        ensures
            final(self).parsed(),
            final(self).bytecode@ == old(self).bytecode@,
            final(self).chaotic_bits == old(self).chaotic_bits,
            final(self).origin@ == old(self).origin@,
            final(self).supplied@ == old(self).supplied@,
            final(self).settled(
                run_from(
                    old(self).blocks(),
                    old(self).cursor as nat,
                    old(self).emitted@,
                    old(self).stream@,
                ),
            ),
            outcome_kept(
                old(self).blocks(),
                run_from(
                    old(self).blocks(),
                    old(self).cursor as nat,
                    old(self).emitted@,
                    old(self).stream@,
                ),
            ),
            step.reports(
                old(self).blocks(),
                run_from(
                    old(self).blocks(),
                    old(self).cursor as nat,
                    old(self).emitted@,
                    old(self).stream@,
                ),
            ),
            step matches Step::Done { output } ==> covers(old(self).bytecode@, output@),
    {
        let ghost blocks = self.blocks();
        let ghost goal = run_from(blocks, self.cursor as nat, self.emitted@, self.stream@);
        proof {
            lemma_run_from_kept(blocks, self.cursor as nat, self.emitted@, self.stream@);
        }
        while self.cursor < self.blocks.len()
            invariant
                self.parsed(),
                blocks == self.blocks(),
                !self.awaiting,
                self.cursor <= self.blocks@.len(),
                self.bytecode@ == old(self).bytecode@,
                self.chaotic_bits == old(self).chaotic_bits,
                self.origin@ == old(self).origin@,
                self.supplied@ == old(self).supplied@,
                blocks == old(self).blocks(),
                goal == run_from(
                    blocks,
                    old(self).cursor as nat,
                    old(self).emitted@,
                    old(self).stream@,
                ),
                goal == run_from(blocks, self.cursor as nat, self.emitted@, self.stream@),
                outcome_kept(blocks, goal),
            decreases self.blocks@.len() - self.cursor,
        {
            proof {
                assert(blocks[self.cursor as int] == self.blocks@[self.cursor as int]@);
            }
            if self.stream.next_bool(3, 10) {
                self.awaiting = true;
                return Step::AwaitingShuffleCount {
                    block_len: self.blocks[self.cursor].opcodes.len(),
                };
            }
            rewrite(&self.blocks[self.cursor].opcodes, &mut self.stream, &mut self.emitted);
            self.cursor = self.cursor + 1;
        }
        let mut output: Vec<u8> = Vec::new();
        std::mem::swap(&mut output, &mut self.emitted);
        self.cursor = 0;
        proof {
            lemma_kept_covers(self.bytecode@, output@);
        }
        Step::Done { output }
    }
}

/// The same seed gives the same bytes. Two obfuscators of the same byte
/// stream, whose passes began with the generator in the same state and were
/// given the same numbers of exchanges, stand at the same point, and what
/// their calls handed back agrees: both are done, with the same output, or
/// both pause at blocks of the same length.
pub proof fn lemma_passes_agree(first: Obfuscator, reached: Step, second: Obfuscator, other: Step)
    requires
        first.bytecode() == second.bytecode(),
        first.origin() == second.origin(),
        first.supplied() == second.supplied(),
        first.came_to(reached),
        second.came_to(other),
    ensures
        first.standing() == second.standing(),
        first.stream() == second.stream(),
        first.awaiting() == second.awaiting(),
        reached matches Step::Done { output } ==> (other matches Step::Done { output: same }
            && same@ == output@),
        reached matches Step::AwaitingShuffleCount { block_len } ==> (
        other matches Step::AwaitingShuffleCount { block_len: same } && same == block_len),
{
}

} // verus!
