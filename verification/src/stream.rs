//! The seeded generator from which every choice of the obfuscation is drawn.
//!
//! The generator is `rand`'s `StdRng`. What it answers is fixed by the seed
//! it was made from and by the requests made of it so far, in their order;
//! the contracts below speak of a generator through these two alone.

use rand::rngs::StdRng;
use rand::Rng;
use rand::SeedableRng;
use vstd::prelude::*;

verus! {

/// `rand::rngs::StdRng`, carried as an opaque value.
#[verifier::external_type_specification]
#[verifier::external_body]
pub struct ExStdRng(StdRng);

/// One request made of a generator.
pub enum Draw {
    /// A yes-or-no draw that comes up true `numerator` times in `denominator`.
    Gate { numerator: u32, denominator: u32 },
    /// An index below `bound`, each equally likely.
    Index { bound: u64 },
    /// A byte, each value equally likely.
    Byte,
}

/// What fixes a generator's answers: its seed and the requests it has served.
pub struct StreamState {
    pub seed: u64,
    pub drawn: Seq<Draw>,
}

impl StreamState {
    /// The state of a generator made from `seed` and not yet used.
    pub open spec fn fresh(seed: u64) -> StreamState {
        StreamState { seed, drawn: Seq::empty() }
    }

    /// The state once `draw` has been served as well.
    pub open spec fn after(self, draw: Draw) -> StreamState {
        StreamState { seed: self.seed, drawn: self.drawn.push(draw) }
    }

    /// The state once a gate with these odds has been drawn.
    pub open spec fn after_gate(self, numerator: u32, denominator: u32) -> StreamState {
        self.after(Draw::Gate { numerator, denominator })
    }

    /// The state once an index below `bound` has been drawn.
    pub open spec fn after_index(self, bound: u64) -> StreamState {
        self.after(Draw::Index { bound })
    }

    /// The state once a byte has been drawn.
    pub open spec fn after_byte(self) -> StreamState {
        self.after(Draw::Byte)
    }
}

/// What `StdRng::gen_ratio(numerator, denominator)` answers in `state`.
pub uninterp spec fn gate_drawn(state: StreamState, numerator: u32, denominator: u32) -> bool;

/// What `StdRng::gen_range(0..bound)` answers in `state`, for a 64-bit `bound`.
pub uninterp spec fn index_drawn(state: StreamState, bound: u64) -> u64;

/// What `StdRng::gen::<u8>()` answers in `state`.
pub uninterp spec fn byte_drawn(state: StreamState) -> u8;

/// A seeded generator together with the record of what fixes its answers.
///
/// The record is set where the generator is made and grows where the
/// generator is drawn from, in the four functions below that call `rand`.
/// No other code builds a `Stream` or writes to its record, so the
/// generator inside is always the one that the record describes.
pub struct Stream {
    rng: StdRng,
    state: Ghost<StreamState>,
}

impl View for Stream {
    type V = StreamState;

    /// The record. The generator itself is opaque and has no part in the
    /// view.
    closed spec fn view(&self) -> StreamState {
        self.state@
    }
}

/// `StdRng::seed_from_u64`: the generator for `seed`, with the record of a
/// generator made from `seed` that has served no request yet.
#[verifier::external_body]
fn stream_from_seed(seed: u64) -> (stream: Stream)
    ensures
        stream@ == StreamState::fresh(seed),
{
    Stream { rng: StdRng::seed_from_u64(seed), state: Ghost(StreamState::fresh(seed)) }
}

/// `Rng::gen_ratio` on the generator of `stream`. The answer is the one that
/// the seed and the requests served so far determine, and the request is
/// added to the record. `gen_ratio` panics on a zero denominator and on a
/// numerator above the denominator, which `requires` leaves out.
///
/// The odds are a ratio of integers. `gen_ratio` holds the next 64 bits of
/// the generator against the threshold that `gen_bool` uses for the
/// probability nearest to the ratio, so three in ten is drawn as the
/// probability 0.3 would be.
#[verifier::external_body]
fn draw_gate(stream: &mut Stream, numerator: u32, denominator: u32) -> (outcome: bool)
    requires
        denominator != 0,
        numerator <= denominator,
    ensures
        outcome == gate_drawn(old(stream)@, numerator, denominator),
        final(stream)@ == old(stream)@.after_gate(numerator, denominator),
{
    stream.rng.gen_ratio(numerator, denominator)
}

/// `Rng::gen_range(0..bound)` on the generator of `stream`, sampled as a
/// 64-bit integer so that the answer does not depend on the width of
/// `usize`. The answer lies below `bound`, is the one that the seed and the
/// requests served so far determine, and the request is added to the
/// record. `gen_range` panics on an empty range, which `requires` leaves
/// out.
#[verifier::external_body]
fn draw_index(stream: &mut Stream, bound: u64) -> (index: u64)
    requires
        bound > 0,
    ensures
        index == index_drawn(old(stream)@, bound),
        index < bound,
        final(stream)@ == old(stream)@.after_index(bound),
{
    stream.rng.gen_range(0..bound)
}

/// `Rng::gen::<u8>()` on the generator of `stream`. The answer is the one
/// that the seed and the requests served so far determine, and the request
/// is added to the record.
#[verifier::external_body]
fn draw_byte(stream: &mut Stream) -> (byte: u8)
    ensures
        byte == byte_drawn(old(stream)@),
        final(stream)@ == old(stream)@.after_byte(),
{
    stream.rng.gen::<u8>()
}

impl Stream {
    /// The generator for `seed`, not yet used.
    pub fn seeded(seed: u64) -> (stream: Stream)
        ensures
            stream@ == StreamState::fresh(seed),
    {
        stream_from_seed(seed)
    }

    /// Draws a gate that comes up true `numerator` times in `denominator`.
    pub fn next_bool(&mut self, numerator: u32, denominator: u32) -> (outcome: bool)
        requires
            denominator != 0,
            numerator <= denominator,
        ensures
            outcome == gate_drawn(old(self)@, numerator, denominator),
            final(self)@ == old(self)@.after_gate(numerator, denominator),
    {
        draw_gate(self, numerator, denominator)
    }

    /// Draws an index below `bound`.
    pub fn next_range(&mut self, bound: usize) -> (index: usize)
        requires
            bound > 0,
        ensures
            index == index_drawn(old(self)@, bound as u64),
            index < bound,
            final(self)@ == old(self)@.after_index(bound as u64),
    {
        draw_index(self, bound as u64) as usize
    }

    /// Draws a byte.
    pub fn next_byte(&mut self) -> (byte: u8)
        ensures
            byte == byte_drawn(old(self)@),
            final(self)@ == old(self)@.after_byte(),
    {
        draw_byte(self)
    }
}

} // verus!
