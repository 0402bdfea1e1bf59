//! The state of one direction of a connection: the framer of its byte stream,
//! the key and the nonce that its chunks are decrypted with, and the parser of
//! what they decrypt to.

use crate::framer::{chunk_views, chunks_of, rest_of, Framer};
use crate::nonce::{
    be_value, incremented, lemma_next_nonce, next_bytes, next_value, Nonce, NONCE_SIZE,
};
use crate::parser::{fed_to, DecodeOutcome, Parser, ParserState, Phase, Resolution};
use crate::tables::copy_bytes;
use sodiumoxide::crypto::box_;
use vstd::prelude::*;

verus! {

/// Number of bytes in the precomputed key of a session.
pub const KEY_SIZE: usize = 32;

/// Number of bytes by which a chunk is longer than what it decrypts to: the
/// authentication tag.
pub const TAG_SIZE: usize = 16;

/// What a ciphertext opens to under a nonce and a precomputed key: the plaintext,
/// or nothing where the ciphertext does not verify.
pub uninterp spec fn opened(ciphertext: Seq<u8>, nonce: Seq<u8>, key: Seq<u8>) -> Option<Seq<u8>>;

/// The bytes of a plaintext, where there is one.
pub open spec fn plain_view(plain: Option<Vec<u8>>) -> Option<Seq<u8>> {
    match plain {
        Some(bytes) => Some(bytes@),
        None => None,
    }
}

/// `box_::open_precomputed` of the `sodiumoxide` crate: it verifies and decrypts
/// a ciphertext under a nonce and a precomputed key. What comes back depends on
/// these three alone. A ciphertext shorter than the tag is refused, and a
/// plaintext is shorter than its ciphertext by the tag.
#[verifier::external_body]
fn open_precomputed(ciphertext: &[u8], nonce: &[u8; 24], key: &[u8; 32]) -> (plain: Option<
    Vec<u8>,
>)
    ensures
        plain_view(plain) == opened(ciphertext@, nonce@, key@),
        ciphertext@.len() < TAG_SIZE ==> plain is None,
        plain matches Some(bytes) ==> bytes@.len() + TAG_SIZE == ciphertext@.len(),
{
    let nonce = box_::Nonce(*nonce);
    let key = box_::PrecomputedKey(*key);
    box_::open_precomputed(ciphertext, &nonce, &key).ok()
}

/// What a run over chunks leaves: the plaintexts of the chunks that opened, the
/// chunks that did not open, and the nonce after the run.
pub struct Run {
    pub plaintexts: Seq<Seq<u8>>,
    pub rejected: Seq<Seq<u8>>,
    pub nonce: Seq<u8>,
}

/// The run over `chunks` from `nonce`: each chunk is opened under the nonce of
/// the moment, and the nonce moves on by one behind each chunk that opened, and
/// behind no other.
pub open spec fn decrypt_all(chunks: Seq<Seq<u8>>, nonce: Seq<u8>, key: Seq<u8>) -> Run
    decreases chunks.len(),
{
    if chunks.len() == 0 {
        Run { plaintexts: Seq::empty(), rejected: Seq::empty(), nonce }
    } else {
        match opened(chunks[0], nonce, key) {
            Some(plain) => {
                let rest = decrypt_all(chunks.drop_first(), next_bytes(nonce), key);
                Run { plaintexts: seq![plain] + rest.plaintexts, ..rest }
            },
            None => {
                let rest = decrypt_all(chunks.drop_first(), nonce, key);
                Run { rejected: seq![chunks[0]] + rest.rejected, ..rest }
            },
        }
    }
}

/// The steps of a counter can be counted from either end.
pub proof fn lemma_incremented_shift(value: nat, n: nat)
    ensures
        incremented(next_value(value), n) == incremented(value, n + 1),
    decreases n,
{
    assert(incremented(value, n + 1) == next_value(incremented(value, n)));
    if n > 0 {
        lemma_incremented_shift(value, (n - 1) as nat);
    } else {
        assert(incremented(value, 0) == value);
    }
}

/// The nonce after a run stands as many values behind the nonce before it as
/// chunks opened in the run: the chunks that did not open have not moved it.
pub proof fn lemma_run_nonce(chunks: Seq<Seq<u8>>, nonce: Seq<u8>, key: Seq<u8>)
    requires
        nonce.len() == NONCE_SIZE,
    ensures
        decrypt_all(chunks, nonce, key).nonce.len() == NONCE_SIZE,
        decrypt_all(chunks, nonce, key).plaintexts.len() <= chunks.len(),
        be_value(decrypt_all(chunks, nonce, key).nonce) == incremented(
            be_value(nonce),
            decrypt_all(chunks, nonce, key).plaintexts.len(),
        ),
    decreases chunks.len(),
{
    if chunks.len() > 0 {
        match opened(chunks[0], nonce, key) {
            Some(plain) => {
                lemma_next_nonce(nonce);
                lemma_run_nonce(chunks.drop_first(), next_bytes(nonce), key);
                lemma_incremented_shift(
                    be_value(nonce),
                    decrypt_all(chunks.drop_first(), next_bytes(nonce), key).plaintexts.len(),
                );
            },
            None => {
                lemma_run_nonce(chunks.drop_first(), nonce, key);
            },
        }
    }
}

/// The number of bytes in all the byte strings together.
pub open spec fn total_len(parts: Seq<Seq<u8>>) -> nat
    decreases parts.len(),
{
    if parts.len() == 0 {
        0
    } else {
        total_len(parts.drop_last()) + parts.last().len()
    }
}

/// What one direction of a connection holds, as mathematical values.
pub struct DecrypterState {
    pub key: Seq<u8>,
    pub nonce: Seq<u8>,
    /// The bytes that wait for the rest of their chunk.
    pub pending: Seq<u8>,
    pub parser: ParserState,
    /// The value of the nonce that the session started with.
    pub start: nat,
    /// How many chunks were decrypted.
    pub decrypted: nat,
}

/// The run over the chunks that a payload completes.
pub open spec fn run_of(state: DecrypterState, payload: Seq<u8>) -> Run {
    decrypt_all(chunks_of(state.pending + payload), state.nonce, state.key)
}

/// Whether feeding the plaintexts of a run to a parser in `state`, one after the
/// other, ends in `end` and gives `received` and `abandoned`: each plaintext that
/// completed a unit with messages is received with them, in the order of the
/// plaintexts, and each plaintext that the parser gave up on is counted.
pub open spec fn delivered<M, D: Fn(Phase, &[u8]) -> DecodeOutcome<M>>(
    decoder: D,
    state: ParserState,
    plaintexts: Seq<Seq<u8>>,
    end: ParserState,
    received: Seq<(Vec<M>, Vec<u8>)>,
    abandoned: nat,
) -> bool
    decreases plaintexts.len(),
{
    if plaintexts.len() == 0 {
        end == state && received.len() == 0 && abandoned == 0
    } else {
        exists|mid: ParserState, step: Resolution<M>|
            #![trigger fed_to(decoder, mid, plaintexts.last(), end, step)]
            fed_to(decoder, mid, plaintexts.last(), end, step) && match step {
                Resolution::Emit(units) => received.len() > 0 && received.last().0 == units
                    && received.last().1@ == plaintexts.last() && delivered(
                    decoder,
                    state,
                    plaintexts.drop_last(),
                    mid,
                    received.drop_last(),
                    abandoned,
                ),
                Resolution::Abandon => abandoned > 0 && delivered(
                    decoder,
                    state,
                    plaintexts.drop_last(),
                    mid,
                    received,
                    (abandoned - 1) as nat,
                ),
                _ => delivered(decoder, state, plaintexts.drop_last(), mid, received, abandoned),
            }
    }
}

/// What a payload gave.
#[derive(Debug)]
pub struct Delivery<M> {
    /// The contents of the chunks that the payload completed, in their order.
    pub chunks: Vec<Vec<u8>>,
    /// The units that the parser handed out, each with the plaintext that
    /// completed it.
    pub received: Vec<(Vec<M>, Vec<u8>)>,
    /// The contents of the chunks that did not open.
    pub rejected: Vec<Vec<u8>>,
    /// How many plaintexts the parser gave up on.
    pub abandoned: usize,
    /// How many bytes were deciphered, for the statistics.
    pub deciphered: usize,
}

/// A number of bytes as a count, the greatest count where it is beyond it.
pub open spec fn capped(bytes: nat) -> usize {
    if bytes > usize::MAX {
        usize::MAX
    } else {
        bytes as usize
    }
}

/// The state of one direction of a connection.
pub struct P2pDecrypter {
    precomputed_key: [u8; 32],
    nonce: Nonce,
    framer: Framer,
    parser: Parser,
    start: Ghost<nat>,
    decrypted: Ghost<nat>,
}

impl View for P2pDecrypter {
    type V = DecrypterState;

    closed spec fn view(&self) -> DecrypterState {
        DecrypterState {
            key: self.precomputed_key@,
            nonce: self.nonce@,
            pending: self.framer@,
            parser: self.parser@,
            start: self.start@,
            decrypted: self.decrypted@,
        }
    }
}

impl P2pDecrypter {
    /// Whether the state is in order. The framer holds no whole chunk, the
    /// parser holds no more than it was fed, and the nonce stands as many values
    /// behind the one that the session started with as chunks were decrypted.
    pub closed spec fn wf(&self) -> bool {
        &&& self.framer.wf()
        &&& self.parser.wf()
        &&& self.nonce@.len() == NONCE_SIZE
        &&& self.precomputed_key@.len() == KEY_SIZE
        &&& be_value(self.nonce@) == incremented(self.start@, self.decrypted@)
    }

    /// What the invariant says of the values that the state holds.
    pub proof fn lemma_wf(&self)
        requires
            self.wf(),
        ensures
            self@.nonce.len() == NONCE_SIZE,
            self@.key.len() == KEY_SIZE,
            be_value(self@.nonce) == incremented(self@.start, self@.decrypted),
            self@.parser.buffer.len() <= self@.parser.fed,
            rest_of(self@.pending) == self@.pending,
            chunks_of(self@.pending) == Seq::<Seq<u8>>::empty(),
    {
    }

    /// The state at the start of a session, from its precomputed key and the
    /// nonce of the direction.
    pub fn new(precomputed_key: [u8; 32], nonce: Nonce) -> (decrypter: P2pDecrypter)
        ensures
            decrypter.wf(),
            decrypter@ == (DecrypterState {
                key: precomputed_key@,
                nonce: nonce@,
                pending: Seq::empty(),
                parser: ParserState {
                    phase: Phase::AwaitingMetadata,
                    buffer: Seq::empty(),
                    remaining: 0,
                    fed: 0,
                },
                start: be_value(nonce@),
                decrypted: 0,
            }),
    {
        let ghost start = be_value(nonce@);
        proof {
            nonce.lemma_len();
        }
        P2pDecrypter {
            precomputed_key,
            nonce,
            framer: Framer::new(),
            parser: Parser::new(),
            start: Ghost(start),
            decrypted: Ghost(0),
        }
    }

    /// The nonce that the next chunk is opened under.
    pub fn nonce_fetch(&self) -> (nonce: Nonce)
        ensures
            nonce@ == self@.nonce,
    {
        self.nonce
    }

    /// The phase that the connection is in.
    pub fn phase(&self) -> (phase: Phase)
        ensures
            phase == self@.parser.phase,
    {
        self.parser.phase()
    }

    /// Moves the nonce on by one.
    fn nonce_increment(&mut self)
        requires
            old(self).wf(),
        ensures
            final(self).wf(),
            final(self)@ == (DecrypterState {
                nonce: next_bytes(old(self)@.nonce),
                decrypted: old(self)@.decrypted + 1,
                ..old(self)@
            }),
    {
        proof {
            lemma_next_nonce(self.nonce@);
        }
        self.nonce = self.nonce.increment();
        self.decrypted = Ghost(self.decrypted@ + 1);
    }

    /// Takes what the opening of a chunk gave: the nonce moves on where the
    /// chunk opened and stays where it did not.
    pub fn accept(&mut self, outcome: Option<Vec<u8>>) -> (plain: Option<Vec<u8>>)
        requires
            old(self).wf(),
        ensures
            final(self).wf(),
            plain == outcome,
            outcome is Some ==> final(self)@ == (DecrypterState {
                nonce: next_bytes(old(self)@.nonce),
                decrypted: old(self)@.decrypted + 1,
                ..old(self)@
            }),
            outcome is None ==> final(self)@ == old(self)@,
    {
        match outcome {
            Some(bytes) => {
                self.nonce_increment();
                Some(bytes)
            },
            None => None,
        }
    }

    /// Opens the contents of one chunk under the nonce of the moment. The nonce
    /// moves on by one where the chunk opened; a chunk that does not open is
    /// dropped and leaves the nonce where it was.
    pub fn try_decrypt(&mut self, chunk: &[u8]) -> (plain: Option<Vec<u8>>)
        requires
            old(self).wf(),
        ensures
            final(self).wf(),
            plain_view(plain) == opened(chunk@, old(self)@.nonce, old(self)@.key),
            plain is Some ==> final(self)@ == (DecrypterState {
                nonce: next_bytes(old(self)@.nonce),
                decrypted: old(self)@.decrypted + 1,
                ..old(self)@
            }),
            plain is None ==> final(self)@ == old(self)@,
    {
        let nonce = self.nonce.get_bytes();
        let outcome = open_precomputed(chunk, &nonce, &self.precomputed_key);
        self.accept(outcome)
    }

    /// Takes the payload of a packet: the framer cuts it into chunks, each chunk
    /// is opened, and what opened goes through the parser. Each unit that the
    /// parser hands out comes back with the plaintext that completed it, and
    /// each chunk that did not open comes back as it was.
    pub fn recv_msg<M, D: Fn(Phase, &[u8]) -> DecodeOutcome<M>>(
        &mut self,
        payload: &[u8],
        decoder: &D,
    ) -> (delivery: Delivery<M>)
        requires
            old(self).wf(),
            forall|phase: Phase, bytes: &[u8]| call_requires(*decoder, (phase, bytes)),
        ensures
            payload@.len() == 0 ==> final(self)@ == old(self)@ && delivery.chunks@.len() == 0
                && delivery.received@.len() == 0 && delivery.rejected@.len() == 0
                && delivery.abandoned == 0 && delivery.deciphered == 0,
            delivery.deciphered == capped(total_len(run_of(old(self)@, payload@).plaintexts)),
            run_of(old(self)@, payload@).plaintexts.len() == 0 ==> final(self)@.parser == old(
                self,
            )@.parser,
            delivered(
                *decoder,
                old(self)@.parser,
                run_of(old(self)@, payload@).plaintexts,
                final(self)@.parser,
                delivery.received@,
                delivery.abandoned as nat,
            ),
            final(self).wf(),
            final(self)@.key == old(self)@.key,
            final(self)@.start == old(self)@.start,
            final(self)@.pending == rest_of(old(self)@.pending + payload@),
            final(self)@.nonce == run_of(old(self)@, payload@).nonce,
            final(self)@.decrypted == old(self)@.decrypted + run_of(
                old(self)@,
                payload@,
            ).plaintexts.len(),
            chunk_views(delivery.chunks@) == chunks_of(old(self)@.pending + payload@),
            chunk_views(delivery.rejected@) == run_of(old(self)@, payload@).rejected,
            final(self)@.parser.fed == old(self)@.parser.fed + total_len(
                run_of(old(self)@, payload@).plaintexts,
            ),
            final(self)@.parser.phase.rank() >= old(self)@.parser.phase.rank(),
            old(self)@.parser.phase == Phase::SteadyState ==> final(self)@.parser.phase
                == Phase::SteadyState,
            delivery.received@.len() + delivery.abandoned <= run_of(
                old(self)@,
                payload@,
            ).plaintexts.len(),
            forall|j: int|
                0 <= j < delivery.received@.len() ==> run_of(
                    old(self)@,
                    payload@,
                ).plaintexts.contains((#[trigger] delivery.received@[j]).1@),
    {
        let ghost key = self@.key;
        proof {
            if payload@.len() == 0 {
                assert(old(self)@.pending + payload@ =~= old(self)@.pending);
            }
        }
        let chunks = self.framer.feed(payload);
        let ghost all = chunk_views(chunks@);
        let ghost run = decrypt_all(all, old(self)@.nonce, key);
        let ghost mut plains: Seq<Seq<u8>> = Seq::empty();
        let mut received: Vec<(Vec<M>, Vec<u8>)> = Vec::new();
        let mut rejected: Vec<Vec<u8>> = Vec::new();
        let mut abandoned: usize = 0;
        let mut deciphered: usize = 0;
        let mut i: usize = 0;
        proof {
            assert(all.skip(0) =~= all);
            assert(plains + run.plaintexts =~= run.plaintexts);
            assert(chunk_views(rejected@) + run.rejected =~= run.rejected);
        }
        while i < chunks.len()
            invariant
                i <= chunks@.len(),
                self.wf(),
                forall|phase: Phase, bytes: &[u8]| call_requires(*decoder, (phase, bytes)),
                delivered(
                    *decoder,
                    old(self)@.parser,
                    plains,
                    self@.parser,
                    received@,
                    abandoned as nat,
                ),
                all == chunk_views(chunks@),
                run == decrypt_all(all, old(self)@.nonce, key),
                self@.key == key,
                self@.start == old(self)@.start,
                self@.pending == rest_of(old(self)@.pending + payload@),
                decrypt_all(all.skip(i as int), self@.nonce, key).nonce == run.nonce,
                plains + decrypt_all(all.skip(i as int), self@.nonce, key).plaintexts
                    == run.plaintexts,
                chunk_views(rejected@) + decrypt_all(all.skip(i as int), self@.nonce, key).rejected
                    == run.rejected,
                plains.len() <= i,
                self@.decrypted == old(self)@.decrypted + plains.len(),
                self@.parser.fed == old(self)@.parser.fed + total_len(plains),
                deciphered == capped(total_len(plains)),
                self@.parser.phase.rank() >= old(self)@.parser.phase.rank(),
                old(self)@.parser.phase == Phase::SteadyState ==> self@.parser.phase
                    == Phase::SteadyState,
                received@.len() + abandoned <= plains.len(),
                forall|j: int|
                    0 <= j < received@.len() ==> plains.contains((#[trigger] received@[j]).1@),
            decreases chunks@.len() - i,
        {
            let ghost left = all.skip(i as int);
            let ghost nonce = self@.nonce;
            proof {
                assert(left[0] == chunks@[i as int]@);
                assert(left.drop_first() =~= all.skip(i + 1));
            }
            match self.try_decrypt(chunks[i].as_slice()) {
                Some(plain) => {
                    let ghost before = plains;
                    proof {
                        let rest = decrypt_all(all.skip(i + 1), next_bytes(nonce), key);
                        plains = plains.push(plain@);
                        assert(plains + rest.plaintexts =~= before + (seq![plain@]
                            + rest.plaintexts));
                        assert(plains.drop_last() =~= before);
                        assert forall|j: int| 0 <= j < received@.len() implies plains.contains(
                            (#[trigger] received@[j]).1@,
                        ) by {
                            let at = choose|at: int|
                                0 <= at < before.len() && before[at] == received@[j].1@;
                            assert(plains[at] == received@[j].1@);
                        }
                    }
                    deciphered = deciphered.saturating_add(plain.len());
                    let ghost mid = self@.parser;
                    let ghost had = received@;
                    let step = self.parser.feed(plain.as_slice(), decoder);
                    let ghost said = step;
                    proof {
                        assert(plains.last() == plain@);
                        assert(fed_to(*decoder, mid, plains.last(), self@.parser, said));
                    }
                    match step {
                        Resolution::Emit(messages) => {
                            received.push((messages, plain));
                            proof {
                                assert(plains[plains.len() - 1] == plain@);
                                assert(received@.drop_last() =~= had);
                            }
                        },
                        Resolution::Abandon => {
                            abandoned = abandoned + 1;
                        },
                        _ => {},
                    }
                    proof {
                        assert(delivered(
                            *decoder,
                            old(self)@.parser,
                            plains,
                            self@.parser,
                            received@,
                            abandoned as nat,
                        ));
                    }
                },
                None => {
                    let ghost before = chunk_views(rejected@);
                    let chunk = copy_bytes(&chunks[i]);
                    proof {
                        let rest = decrypt_all(all.skip(i + 1), nonce, key);
                        assert(before.push(chunk@) + rest.rejected =~= before + (seq![chunk@]
                            + rest.rejected));
                    }
                    rejected.push(chunk);
                    proof {
                        assert(chunk_views(rejected@) =~= before.push(chunk@));
                    }
                },
            }
            i += 1;
        }
        proof {
            assert(all.skip(i as int) =~= Seq::<Seq<u8>>::empty());
            assert(chunk_views(rejected@) + Seq::<Seq<u8>>::empty() =~= chunk_views(rejected@));
        }
        Delivery { chunks, received, rejected, abandoned, deciphered }
    }
}

} // verus!
