//! The staged message parser: it gathers decrypted bytes and hands them to the
//! decoder of the phase that the connection is in, first the metadata of the
//! handshake, then its acknowledgment, then the messages of the peers.

use vstd::prelude::*;

verus! {

/// The phase of a connection.
#[derive(Clone, Copy, PartialEq, Eq, Structural, Debug, Hash)]
pub enum Phase {
    AwaitingMetadata,
    AwaitingAck,
    SteadyState,
}

impl Phase {
    /// How far the phase is along the handshake.
    pub open spec fn rank(self) -> nat {
        match self {
            Phase::AwaitingMetadata => 0,
            Phase::AwaitingAck => 1,
            Phase::SteadyState => 2,
        }
    }

    /// The phase after a unit was decoded in this one.
    pub open spec fn next(self) -> Phase {
        match self {
            Phase::AwaitingMetadata => Phase::AwaitingAck,
            Phase::AwaitingAck => Phase::SteadyState,
            Phase::SteadyState => Phase::SteadyState,
        }
    }

    /// The phase after a unit was decoded in this one.
    pub fn advance(self) -> (next: Phase)
        ensures
            next == self.next(),
    {
        match self {
            Phase::AwaitingMetadata => Phase::AwaitingAck,
            Phase::AwaitingAck => Phase::SteadyState,
            Phase::SteadyState => Phase::SteadyState,
        }
    }
}

/// The phases only move forward, one step at a time, and the last phase is never left.
pub proof fn lemma_phase_moves_forward(phase: Phase)
    ensures
        phase.next().rank() >= phase.rank(),
        phase.next().rank() <= phase.rank() + 1,
        phase == Phase::SteadyState ==> phase.next() == Phase::SteadyState,
{
}

/// What a decoder says of the bytes that it was handed.
#[derive(Debug)]
pub enum DecodeOutcome<M> {
    /// The bytes are one unit, decoded to these messages.
    Decoded(Vec<M>),
    /// The unit needs this many bytes more.
    Underflow(usize),
    /// This many bytes at the end belong to a later unit.
    Overflow(usize),
    /// The bytes are no unit.
    Failed,
}

/// What the parser made of an answer of the decoder.
#[derive(Debug)]
pub enum Resolution<M> {
    /// A unit was decoded: these are its messages.
    Emit(Vec<M>),
    /// A unit was decoded and held no message.
    Quiet,
    /// More bytes are needed: the parser waits for the next delivery.
    Wait,
    /// Bytes of a later unit were cut off: the decoder is to be asked again.
    Retry,
    /// The attempt is given up for this delivery, and the bytes stay.
    Abandon,
}

/// What a parser holds, as mathematical values.
pub struct ParserState {
    pub phase: Phase,
    /// The bytes that wait to be decoded.
    pub buffer: Seq<u8>,
    /// How many bytes the decoder still asked for.
    pub remaining: usize,
    /// How many bytes were fed in all.
    pub fed: nat,
}

/// The sum of two numbers, the greatest number where the sum is beyond it.
pub open spec fn capped_sum(a: usize, b: usize) -> usize {
    if a + b > usize::MAX {
        usize::MAX
    } else {
        (a + b) as usize
    }
}

/// What is left of `a` after `b` was taken, nothing where `b` is more.
pub open spec fn floored_difference(a: usize, b: nat) -> usize {
    if a >= b {
        (a - b) as usize
    } else {
        0
    }
}

/// The parser after it took in `plaintext`.
pub open spec fn absorbed(state: ParserState, plaintext: Seq<u8>) -> ParserState {
    ParserState {
        phase: state.phase,
        buffer: state.buffer + plaintext,
        remaining: floored_difference(state.remaining, plaintext.len()),
        fed: state.fed + plaintext.len(),
    }
}

/// Whether the decoder cut off a number of bytes that the buffer can give:
/// at least one, and no more than it holds.
pub open spec fn can_trim(state: ParserState, bytes: usize) -> bool {
    0 < bytes <= state.buffer.len()
}

/// The parser after the decoder answered.
pub open spec fn resolved<M>(state: ParserState, outcome: DecodeOutcome<M>) -> ParserState {
    match outcome {
        DecodeOutcome::Decoded(_) => ParserState {
            phase: state.phase.next(),
            buffer: Seq::empty(),
            ..state
        },
        DecodeOutcome::Underflow(bytes) => ParserState {
            remaining: capped_sum(state.remaining, bytes),
            ..state
        },
        DecodeOutcome::Overflow(bytes) => if can_trim(state, bytes) {
            ParserState { buffer: state.buffer.take(state.buffer.len() - bytes), ..state }
        } else {
            state
        },
        DecodeOutcome::Failed => state,
    }
}

/// What the parser makes of an answer of the decoder.
pub open spec fn resolution<M>(state: ParserState, outcome: DecodeOutcome<M>) -> Resolution<M> {
    match outcome {
        DecodeOutcome::Decoded(units) => if state.phase == Phase::SteadyState && units@.len()
            == 0 {
            Resolution::Quiet
        } else {
            Resolution::Emit(units)
        },
        DecodeOutcome::Underflow(_) => Resolution::Wait,
        DecodeOutcome::Overflow(bytes) => if can_trim(state, bytes) {
            Resolution::Retry
        } else {
            Resolution::Abandon
        },
        DecodeOutcome::Failed => Resolution::Abandon,
    }
}

/// Whatever the decoder answers: the phase does not move back and never leaves the
/// last phase, the buffer does not grow, and where the decoder is to be asked
/// again the buffer has become shorter, so that the asking comes to an end.
pub proof fn lemma_resolved<M>(state: ParserState, outcome: DecodeOutcome<M>)
    ensures
        resolved(state, outcome).phase.rank() >= state.phase.rank(),
        state.phase == Phase::SteadyState ==> resolved(state, outcome).phase == Phase::SteadyState,
        resolved(state, outcome).buffer.len() <= state.buffer.len(),
        resolved(state, outcome).fed == state.fed,
        resolution(state, outcome) is Retry ==> resolved(state, outcome).buffer.len()
            < state.buffer.len(),
{
}

/// Whether `outcome` is an answer of the decoder to the bytes of a phase.
pub open spec fn decoder_says<M, D: Fn(Phase, &[u8]) -> DecodeOutcome<M>>(
    decoder: D,
    phase: Phase,
    bytes: Seq<u8>,
    outcome: DecodeOutcome<M>,
) -> bool {
    exists|handed: &[u8]| handed@ == bytes && #[trigger] call_ensures(decoder, (phase, handed), outcome)
}

/// Whether a run of the decoder over the buffer of `state` ends in `end` with
/// `step`: the decoder of the phase is asked for the buffer, and as long as it
/// cuts bytes of a later unit off, it is asked again for what is left.
pub open spec fn runs_to<M, D: Fn(Phase, &[u8]) -> DecodeOutcome<M>>(
    decoder: D,
    state: ParserState,
    end: ParserState,
    step: Resolution<M>,
) -> bool
    decreases state.buffer.len(),
{
    exists|outcome: DecodeOutcome<M>|
        #![trigger resolution(state, outcome)]
        decoder_says(decoder, state.phase, state.buffer, outcome) && if resolution(
            state,
            outcome,
        ) is Retry {
            runs_to(decoder, resolved(state, outcome), end, step)
        } else {
            end == resolved(state, outcome) && step == resolution(state, outcome)
        }
}

/// Whether feeding `plaintext` to a parser in `state` ends in `end` with `step`:
/// the bytes are taken in, and once no bytes are waited for any more, the
/// decoder is run.
pub open spec fn fed_to<M, D: Fn(Phase, &[u8]) -> DecodeOutcome<M>>(
    decoder: D,
    state: ParserState,
    plaintext: Seq<u8>,
    end: ParserState,
    step: Resolution<M>,
) -> bool {
    if state.remaining > plaintext.len() {
        end == absorbed(state, plaintext) && step is Wait
    } else {
        runs_to(decoder, absorbed(state, plaintext), end, step)
    }
}

/// The parser of one direction of a connection.
pub struct Parser {
    phase: Phase,
    buffer: Vec<u8>,
    remaining: usize,
    fed: Ghost<nat>,
}

impl View for Parser {
    type V = ParserState;

    closed spec fn view(&self) -> ParserState {
        ParserState {
            phase: self.phase,
            buffer: self.buffer@,
            remaining: self.remaining,
            fed: self.fed@,
        }
    }
}

impl Parser {
    /// Whether the parser is in order: it holds no more bytes than it was fed.
    pub open spec fn wf(&self) -> bool {
        self@.buffer.len() <= self@.fed
    }

    /// A parser at the start of a connection.
    pub fn new() -> (parser: Parser)
        ensures
            parser.wf(),
            parser@ == (ParserState {
                phase: Phase::AwaitingMetadata,
                buffer: Seq::empty(),
                remaining: 0,
                fed: 0,
            }),
    {
        Parser { phase: Phase::AwaitingMetadata, buffer: Vec::new(), remaining: 0, fed: Ghost(0) }
    }

    /// The phase that the connection is in.
    pub fn phase(&self) -> (phase: Phase)
        ensures
            phase == self@.phase,
    {
        self.phase
    }

    /// The bytes that wait to be decoded.
    pub fn buffered(&self) -> (bytes: &[u8])
        ensures
            bytes@ == self@.buffer,
    {
        self.buffer.as_slice()
    }

    /// How many bytes the decoder still asked for.
    pub fn expected_remaining(&self) -> (bytes: usize)
        ensures
            bytes == self@.remaining,
    {
        self.remaining
    }

    /// Takes decrypted bytes in, and says whether the decoder is to be asked:
    /// it is once the bytes that it asked for have come.
    pub fn absorb(&mut self, plaintext: &[u8]) -> (ready: bool)
        requires
            old(self).wf(),
        ensures
            final(self).wf(),
            final(self)@ == absorbed(old(self)@, plaintext@),
            ready == (final(self)@.remaining == 0),
    {
        self.remaining = self.remaining.saturating_sub(plaintext.len());
        self.buffer.extend_from_slice(plaintext);
        self.fed = Ghost(self.fed@ + plaintext@.len());
        assert(self@.buffer == old(self)@.buffer + plaintext@);
        self.remaining == 0
    }

    /// Takes an answer of the decoder.
    ///
    /// A decoded unit empties the buffer and moves the phase on. An underflow
    /// adds to the bytes that are waited for. An overflow cuts the bytes of the
    /// later unit off the end of the buffer, so that the decoder can be asked
    /// again; an overflow of no bytes, or of more bytes than the buffer holds,
    /// is taken as a failure. A failure leaves everything as it is.
    pub fn resolve<M>(&mut self, outcome: DecodeOutcome<M>) -> (step: Resolution<M>)
        requires
            old(self).wf(),
        ensures
            final(self).wf(),
            final(self)@ == resolved(old(self)@, outcome),
            step == resolution(old(self)@, outcome),
    {
        match outcome {
            DecodeOutcome::Decoded(units) => {
                let quiet = self.phase == Phase::SteadyState && units.len() == 0;
                self.buffer.clear();
                self.phase = self.phase.advance();
                if quiet {
                    Resolution::Quiet
                } else {
                    Resolution::Emit(units)
                }
            },
            DecodeOutcome::Underflow(bytes) => {
                self.remaining = self.remaining.saturating_add(bytes);
                Resolution::Wait
            },
            DecodeOutcome::Overflow(bytes) => {
                if 0 < bytes && bytes <= self.buffer.len() {
                    let keep = self.buffer.len() - bytes;
                    self.buffer.truncate(keep);
                    proof {
                        assert(self.buffer@ =~= old(self)@.buffer.take(keep as int));
                    }
                    Resolution::Retry
                } else {
                    Resolution::Abandon
                }
            },
            DecodeOutcome::Failed => Resolution::Abandon,
        }
    }

    /// Takes decrypted bytes in and runs the decoder of the phase over what is
    /// buffered, again and again as long as it cuts bytes of a later unit off,
    /// and says how the run ended.
    ///
    /// As long as bytes are waited for, the decoder is not asked. Whatever the
    /// decoder answers, the run ends, the phase moves forward by one step at
    /// most, and the parser holds no more bytes than before and the delivery
    /// together.
    pub fn feed<M, D: Fn(Phase, &[u8]) -> DecodeOutcome<M>>(
        &mut self,
        plaintext: &[u8],
        decoder: &D,
    ) -> (step: Resolution<M>)
        requires
            old(self).wf(),
            forall|phase: Phase, bytes: &[u8]| call_requires(*decoder, (phase, bytes)),
        ensures
            final(self).wf(),
            fed_to(*decoder, old(self)@, plaintext@, final(self)@, step),
            !(step is Retry),
            final(self)@.fed == old(self)@.fed + plaintext@.len(),
            final(self)@.buffer.len() <= old(self)@.buffer.len() + plaintext@.len(),
            final(self)@.phase.rank() >= old(self)@.phase.rank(),
            final(self)@.phase.rank() <= old(self)@.phase.rank() + 1,
            old(self)@.phase == Phase::SteadyState ==> final(self)@.phase == Phase::SteadyState,
            step is Emit || step is Quiet ==> final(self)@.buffer.len() == 0 && final(self)@.phase
                == old(self)@.phase.next() && final(self)@.remaining == 0,
            step is Quiet ==> old(self)@.phase == Phase::SteadyState,
            step is Wait || step is Abandon ==> final(self)@.phase == old(self)@.phase,
            step is Abandon ==> final(self)@.remaining == 0,
    {
        if !self.absorb(plaintext) {
            return Resolution::Wait;
        }
        let ghost taken = self@;
        loop
            invariant
                self.wf(),
                forall|phase: Phase, bytes: &[u8]| call_requires(*decoder, (phase, bytes)),
                self@.phase == taken.phase,
                self@.fed == taken.fed,
                self@.remaining == 0,
                self@.buffer.len() <= taken.buffer.len(),
                taken == absorbed(old(self)@, plaintext@),
                taken.remaining == 0,
                forall|end: ParserState, last: Resolution<M>|
                    runs_to(*decoder, self@, end, last) ==> runs_to(*decoder, taken, end, last),
            decreases self@.buffer.len(),
        {
            let ghost before = self@;
            let outcome = decoder(self.phase, self.buffer.as_slice());
            proof {
                assert(decoder_says(*decoder, before.phase, before.buffer, outcome));
            }
            let step = self.resolve(outcome);
            match step {
                Resolution::Retry => {
                    proof {
                        assert forall|end: ParserState, last: Resolution<M>|
                            runs_to(*decoder, self@, end, last) implies runs_to(
                            *decoder,
                            taken,
                            end,
                            last,
                        ) by {
                            assert(resolution(before, outcome) is Retry);
                            assert(runs_to(*decoder, before, end, last));
                        }
                    }
                },
                _ => {
                    proof {
                        assert(resolution(before, outcome) == step);
                        assert(runs_to(*decoder, before, self@, step));
                    }
                    return step;
                },
            }
        }
    }
}

} // verus!
