//! The decisions of a transfer: which tones the sender plays, how the
//! listening side turns heard tones into a packet, how answers and time
//! limits are read. The audio devices themselves are driven from outside
//! this crate, which reports each heard tone and the time that has passed.
use vstd::prelude::*;

use crate::error_correction::{decoded_payload, is_encoding_of, DecodeError};
use crate::frequency::Frequency;
use crate::packets::{fits_envelope, lemma_packet_roundtrip, xz_decompressed};
use crate::modulation::{
    demodulate, demodulated, lemma_demodulate_modulate, modulate, modulated, symbol_freq,
};
use crate::quantise::{
    is_within_tolerance_to, lemma_quantise_code_tone, nearest_symbol, quantise_to_codec,
};
use crate::{
    CONFIRMATION_ACCEPT_FREQ, CONFIRMATION_DENY_FREQ, EOT_FREQ, INITIATION_FREQ, MOD_OFFSET,
    MOD_STEP_SIZE, SOT_FREQ, STD_TOLERANCE, SYMBOL_DURATION_MS,
};

verus! {

/// How long the end tone sounds, in milliseconds.
pub const EOT_DURATION_MS: u64 = 500;

/// How long the receiver waits for a start tone, in nanoseconds (60 s).
pub const WAIT_TIMEOUT_NS: u128 = 60_000_000_000;

/// How long the receiver waits between two heard tones inside a packet, in
/// nanoseconds (8 s).
pub const PACKET_IDLE_TIMEOUT_NS: u128 = 8_000_000_000;

/// How long the sender waits for the receiver's answer, in nanoseconds (30 s).
pub const CONFIRMATION_TIMEOUT_NS: u128 = 30_000_000_000;

/// `n` lies within `tolerance` of `goal`.
pub open spec fn within(n: u32, goal: u32, tolerance: u32) -> bool {
    n - goal <= tolerance && goal - n <= tolerance
}

/// The tones that carry `encoded`: the start tone, the 16-MFSK tones of the
/// bytes, the long end tone.
pub open spec fn transmission(encoded: Seq<u8>) -> Seq<Frequency> {
    seq![Frequency { freq: SOT_FREQ, len: SYMBOL_DURATION_MS }] + modulated(encoded) + seq![
        Frequency { freq: EOT_FREQ, len: EOT_DURATION_MS },
    ]
}

/// The layout of a transmission: the start tone, then for each byte two
/// tones, `MOD_OFFSET + MOD_STEP_SIZE` times its high nibble and then times
/// its low nibble, then the end tone. Every tone but the end tone lasts one
/// symbol, so a listener that takes windows of half a symbol hears each of
/// them twice; the end tone lasts `EOT_DURATION_MS`.
pub proof fn lemma_transmission_layout(encoded: Seq<u8>)
    ensures
        transmission(encoded).len() == 2 * encoded.len() + 2,
        transmission(encoded)[0].freq == SOT_FREQ,
        transmission(encoded)[transmission(encoded).len() - 1].freq == EOT_FREQ,
        transmission(encoded)[transmission(encoded).len() - 1].len == EOT_DURATION_MS,
        forall|i: int|
            0 <= i < transmission(encoded).len() - 1 ==> (#[trigger] transmission(encoded)[i]).len
                == SYMBOL_DURATION_MS,
        forall|k: int|
            0 <= k < encoded.len() ==> (#[trigger] transmission(encoded)[2 * k + 1]).freq
                == MOD_OFFSET + MOD_STEP_SIZE * (encoded[k] / 16) && transmission(encoded)[2 * k
                + 2].freq == MOD_OFFSET + MOD_STEP_SIZE * (encoded[k] % 16),
{
    let t = transmission(encoded);
    let m = modulated(encoded);
    assert forall|i: int| 0 <= i < t.len() - 1 implies (#[trigger] t[i]).len == SYMBOL_DURATION_MS by {
        if i > 0 {
            assert(t[i] == m[i - 1]);
        }
    }
    assert forall|k: int| 0 <= k < encoded.len() implies (#[trigger] t[2 * k + 1]).freq
        == MOD_OFFSET + MOD_STEP_SIZE * (encoded[k] / 16) && t[2 * k + 2].freq == MOD_OFFSET
        + MOD_STEP_SIZE * (encoded[k] % 16) by {
        let b = encoded[k];
        assert(t[2 * k + 1] == m[2 * k]);
        assert(t[2 * k + 2] == m[2 * k + 1]);
        assert((2 * k) / 2 == k && (2 * k) % 2 == 0);
        assert((2 * k + 1) / 2 == k && (2 * k + 1) % 2 == 1);
        assert((b >> 4u8) & 0x0Fu8 == b / 16) by (bit_vector);
        assert(b & 0x0Fu8 == b % 16) by (bit_vector);
    }
}

/// The tones to play for a packet whose bytes are `encoded`: the start
/// tone for one symbol, two tones of one symbol per byte (high nibble,
/// then low nibble, each `MOD_OFFSET + MOD_STEP_SIZE * nibble` Hz), and the
/// end tone for `EOT_DURATION_MS`.
pub fn transmission_tones(encoded: Vec<u8>) -> (r: Vec<Frequency>)
    requires
        2 * encoded@.len() + 2 <= usize::MAX,
    ensures
        r@ == transmission(encoded@),
        r@.len() == 2 * encoded@.len() + 2,
        r@[0].freq == SOT_FREQ,
        r@[r@.len() - 1].freq == EOT_FREQ,
        r@[r@.len() - 1].len == EOT_DURATION_MS,
        forall|i: int| 0 <= i < r@.len() - 1 ==> (#[trigger] r@[i]).len == SYMBOL_DURATION_MS,
        forall|k: int|
            0 <= k < encoded@.len() ==> (#[trigger] r@[2 * k + 1]).freq == MOD_OFFSET
                + MOD_STEP_SIZE * (encoded@[k] / 16) && r@[2 * k + 2].freq == MOD_OFFSET
                + MOD_STEP_SIZE * (encoded@[k] % 16),
{
    let ghost bytes = encoded@;
    let mut out: Vec<Frequency> = Vec::new();
    out.push(Frequency::new(SOT_FREQ));
    let mut body = modulate(encoded);
    out.append(&mut body);
    out.push(Frequency::new_with_len(EOT_FREQ, EOT_DURATION_MS));
    assert(out@ =~= transmission(bytes));
    proof {
        lemma_transmission_layout(bytes);
    }
    out
}

/// What the listening side knows of a packet so far.
pub struct ReceiverView {
    /// A start tone has been heard and no end tone since.
    pub in_packet: bool,
    /// The end tone has been heard.
    pub complete: bool,
    /// The tones heard inside the packet, snapped to the code.
    pub freqs: Seq<Frequency>,
}

/// The listening side before it has heard anything.
pub open spec fn receiver_start() -> ReceiverView {
    ReceiverView { in_packet: false, complete: false, freqs: Seq::empty() }
}

/// How the listening side takes one tone heard in a window of half a
/// symbol: once the packet is complete it ignores everything; inside a
/// packet the end tone completes it and any other tone is kept, snapped to
/// the code; outside a packet only the start tone counts, and it opens one.
pub open spec fn receiver_step(s: ReceiverView, freq: u32) -> ReceiverView {
    if s.complete {
        s
    } else if s.in_packet && within(freq, EOT_FREQ, STD_TOLERANCE) {
        ReceiverView { in_packet: false, complete: true, freqs: s.freqs }
    } else if s.in_packet {
        ReceiverView {
            freqs: s.freqs.push(
                Frequency { freq: symbol_freq(nearest_symbol(freq)), len: SYMBOL_DURATION_MS },
            ),
            ..s
        }
    } else if within(freq, SOT_FREQ, STD_TOLERANCE) {
        ReceiverView { in_packet: true, ..s }
    } else {
        s
    }
}

/// The listening side after it has heard `tones`, in order.
pub open spec fn receiver_run(s: ReceiverView, tones: Seq<u32>) -> ReceiverView
    decreases tones.len(),
{
    if tones.len() == 0 {
        s
    } else {
        receiver_step(receiver_run(s, tones.drop_last()), tones.last())
    }
}

/// Every tone lasts two windows of half a symbol, and the window that
/// opens the packet is the second half of the start tone; so of the kept
/// tones, the second of each pair is the one that counts.
pub open spec fn picked(freqs: Seq<Frequency>) -> Seq<Frequency> {
    Seq::new(freqs.len() / 2, |i: int| freqs[2 * i + 1])
}

/// The bytes of a packet from the tones kept for it: `None` when the
/// picked tones do not pair up.
pub open spec fn received(freqs: Seq<Frequency>) -> Option<Seq<u8>> {
    let p = picked(freqs);
    if p.len() % 2 != 0 {
        None
    } else {
        Some(demodulated(p))
    }
}

/// The listening side of one packet.
pub struct PacketReceiver {
    in_packet: bool,
    complete: bool,
    freqs: Vec<Frequency>,
}

impl View for PacketReceiver {
    type V = ReceiverView;

    closed spec fn view(&self) -> ReceiverView {
        ReceiverView { in_packet: self.in_packet, complete: self.complete, freqs: self.freqs@ }
    }
}

impl PacketReceiver {
    /// A receiver that has heard nothing.
    pub fn new() -> (r: Self)
        ensures
            r@ == receiver_start(),
    {
        let r = PacketReceiver { in_packet: false, complete: false, freqs: Vec::new() };
        assert(r@.freqs =~= Seq::<Frequency>::empty());
        r
    }

    /// Takes one tone, of `freq` Hz, heard in a window of half a symbol.
    pub fn on_tone(&mut self, freq: u32)
        ensures
            final(self)@ == receiver_step(old(self)@, freq),
    {
        if self.complete {
            return;
        }
        if self.in_packet && is_within_tolerance_to(freq, EOT_FREQ, STD_TOLERANCE) {
            self.in_packet = false;
            self.complete = true;
            return;
        }
        if self.in_packet {
            self.freqs.push(Frequency::new(quantise_to_codec(freq)));
            return;
        }
        if is_within_tolerance_to(freq, SOT_FREQ, STD_TOLERANCE) {
            self.in_packet = true;
        }
    }

    /// A start tone has been heard and no end tone since.
    pub fn is_in_packet(&self) -> (r: bool)
        ensures
            r == self@.in_packet,
    {
        self.in_packet
    }

    /// The end tone has been heard.
    pub fn is_complete(&self) -> (r: bool)
        ensures
            r == self@.complete,
    {
        self.complete
    }

    /// The bytes of the packet heard so far.
    pub fn finish(&self) -> (r: Option<Vec<u8>>)
        ensures
            r.deep_view() == received(self@.freqs),
    {
        let ghost fs = self.freqs@;
        let len: usize = self.freqs.len();
        let n: usize = len / 2;
        let mut chosen: Vec<Frequency> = Vec::new();
        let mut i: usize = 0;
        while i < n
            invariant
                fs == self.freqs@,
                len == fs.len(),
                n == len / 2,
                i <= n,
                chosen@ == picked(fs).take(i as int),
            decreases n - i,
        {
            chosen.push(self.freqs[2 * i + 1]);
            i = i + 1;
            assert(chosen@ =~= picked(fs).take(i as int));
        }
        assert(picked(fs).take(n as int) =~= picked(fs));
        let r = demodulate(chosen);
        proof {
            if r is Some {
                assert(r->0.deep_view() =~= r->0@);
            }
        }
        r
    }
}

/// The answer the receiver sends to a file offer.
#[derive(Debug, Clone, Copy, PartialEq, Eq)]
pub enum Answer {
    Accept,
    Deny,
}

/// The answer a tone of `freq` Hz stands for, if any.
pub open spec fn answer_of(freq: u32) -> Option<Answer> {
    if within(freq, CONFIRMATION_ACCEPT_FREQ, STD_TOLERANCE) {
        Some(Answer::Accept)
    } else if within(freq, CONFIRMATION_DENY_FREQ, STD_TOLERANCE) {
        Some(Answer::Deny)
    } else {
        None
    }
}

/// The answer a heard tone stands for, if any.
pub fn classify_answer(freq: u32) -> (r: Option<Answer>)
    ensures
        r == answer_of(freq),
{
    if is_within_tolerance_to(freq, CONFIRMATION_ACCEPT_FREQ, STD_TOLERANCE) {
        Some(Answer::Accept)
    } else if is_within_tolerance_to(freq, CONFIRMATION_DENY_FREQ, STD_TOLERANCE) {
        Some(Answer::Deny)
    } else {
        None
    }
}

/// The tone that sends an answer.
pub fn answer_tone(answer: Answer) -> (r: Frequency)
    ensures
        r.len == SYMBOL_DURATION_MS,
        answer == Answer::Accept ==> r.freq == CONFIRMATION_ACCEPT_FREQ,
        answer == Answer::Deny ==> r.freq == CONFIRMATION_DENY_FREQ,
{
    match answer {
        Answer::Accept => Frequency::new(CONFIRMATION_ACCEPT_FREQ),
        Answer::Deny => Frequency::new(CONFIRMATION_DENY_FREQ),
    }
}

/// The tone with which the receiver asks a waiting sender to begin.
pub fn initiation_tone() -> (r: Frequency)
    ensures
        r.freq == INITIATION_FREQ,
        r.len == SYMBOL_DURATION_MS,
{
    Frequency::new(INITIATION_FREQ)
}

/// Where the sending side of a transfer stands.
#[derive(Debug, Clone, Copy, PartialEq, Eq)]
pub enum SenderState {
    /// Listening for a receiver's initiation.
    AwaitingInitiation,
    /// The file has been offered; listening for the answer.
    AwaitingAnswer,
    /// The offer was accepted; the file is being played.
    Sending,
    /// The transfer is over, sent or given up.
    Finished,
}

/// What the sending side learns from outside.
#[derive(Debug, Clone, Copy, PartialEq, Eq)]
pub enum SenderEvent {
    /// A tone of this many Hz was heard.
    Heard(u32),
    /// The time for an answer ran out.
    AnswerTimedOut,
    /// The file has been played to the end.
    Sent,
}

/// What the sending side does next.
#[derive(Debug, Clone, Copy, PartialEq, Eq)]
pub enum SenderAction {
    /// Go on as before: listen, or keep playing.
    Wait,
    /// Play the file's announcement, then listen for the answer.
    OfferFile,
    /// Play the file.
    SendFile,
    /// Stop: no answer came in time.
    GiveUp,
    /// Stop: the file was sent.
    Done,
}

/// The state and action that follow `event` in `state`. A waiting sender
/// offers the file when it hears an initiation; an offered file is sent on
/// acceptance, while a denial returns the sender to listening for an
/// initiation and running out of time ends the transfer; a file that has
/// been played to the end finishes it.
pub open spec fn sender_next(state: SenderState, event: SenderEvent) -> (SenderState, SenderAction) {
    match state {
        SenderState::AwaitingInitiation => match event {
            SenderEvent::Heard(f) => if within(f, INITIATION_FREQ, STD_TOLERANCE) {
                (SenderState::AwaitingAnswer, SenderAction::OfferFile)
            } else {
                (state, SenderAction::Wait)
            },
            _ => (state, SenderAction::Wait),
        },
        SenderState::AwaitingAnswer => match event {
            SenderEvent::Heard(f) => match answer_of(f) {
                Some(Answer::Accept) => (SenderState::Sending, SenderAction::SendFile),
                Some(Answer::Deny) => (SenderState::AwaitingInitiation, SenderAction::Wait),
                None => (state, SenderAction::Wait),
            },
            SenderEvent::AnswerTimedOut => (SenderState::Finished, SenderAction::GiveUp),
            SenderEvent::Sent => (state, SenderAction::Wait),
        },
        SenderState::Sending => match event {
            SenderEvent::Sent => (SenderState::Finished, SenderAction::Done),
            _ => (state, SenderAction::Wait),
        },
        SenderState::Finished => (state, SenderAction::Wait),
    }
}

/// One step of the sending side: the state and action that follow `event`
/// in `state`.
pub fn sender_step(state: SenderState, event: SenderEvent) -> (r: (SenderState, SenderAction))
    ensures
        r == sender_next(state, event),
{
    match state {
        SenderState::AwaitingInitiation => match event {
            SenderEvent::Heard(f) => if is_within_tolerance_to(f, INITIATION_FREQ, STD_TOLERANCE) {
                (SenderState::AwaitingAnswer, SenderAction::OfferFile)
            } else {
                (state, SenderAction::Wait)
            },
            _ => (state, SenderAction::Wait),
        },
        SenderState::AwaitingAnswer => match event {
            SenderEvent::Heard(f) => match classify_answer(f) {
                Some(Answer::Accept) => (SenderState::Sending, SenderAction::SendFile),
                Some(Answer::Deny) => (SenderState::AwaitingInitiation, SenderAction::Wait),
                None => (state, SenderAction::Wait),
            },
            SenderEvent::AnswerTimedOut => (SenderState::Finished, SenderAction::GiveUp),
            SenderEvent::Sent => (state, SenderAction::Wait),
        },
        SenderState::Sending => match event {
            SenderEvent::Sent => (SenderState::Finished, SenderAction::Done),
            _ => (state, SenderAction::Wait),
        },
        SenderState::Finished => (state, SenderAction::Wait),
    }
}

/// The sending side after `events`, in order, from `state`, with the
/// actions it took.
pub open spec fn sender_run(state: SenderState, events: Seq<SenderEvent>) -> (SenderState, Seq<
    SenderAction,
>)
    decreases events.len(),
{
    if events.len() == 0 {
        (state, Seq::empty())
    } else {
        let before = sender_run(state, events.drop_last());
        let step = sender_next(before.0, events.last());
        (step.0, before.1.push(step.1))
    }
}

/// The sender offers the file only upon an initiation heard while it
/// waits for one, and plays the file only upon an acceptance heard while
/// the offer stands; a denial heard while the offer stands returns it to
/// waiting for an initiation.
pub proof fn lemma_sender_answers(state: SenderState, event: SenderEvent)
    ensures
        sender_next(state, event).1 == SenderAction::OfferFile ==> (state
            == SenderState::AwaitingInitiation && event is Heard && within(
            event->Heard_0,
            INITIATION_FREQ,
            STD_TOLERANCE,
        )),
        sender_next(state, event).1 == SenderAction::SendFile ==> (state
            == SenderState::AwaitingAnswer && event is Heard && answer_of(event->Heard_0) == Some(
            Answer::Accept,
        )),
        (state == SenderState::AwaitingAnswer && event is Heard && answer_of(event->Heard_0)
            == Some(Answer::Deny)) ==> sender_next(state, event) == (
            SenderState::AwaitingInitiation,
            SenderAction::Wait,
        ),
{
}

/// What the sender does with each event, stated by the frequencies heard:
/// while it waits for an initiation only a tone within `STD_TOLERANCE` of
/// `INITIATION_FREQ` makes it offer the file; while the offer stands a tone
/// within `STD_TOLERANCE` of the accept tone sends the file, one within it
/// of the deny tone returns it to waiting for an initiation, and any other
/// tone leaves it waiting for the answer; it gives up only when the time
/// for an answer runs out while the offer stands, and it is done only when
/// the file it was sending has been played.
pub proof fn lemma_sender_by_frequency(state: SenderState, event: SenderEvent)
    ensures
        state == SenderState::AwaitingInitiation && event is Heard ==> sender_next(state, event)
            == if INITIATION_FREQ - STD_TOLERANCE <= event->Heard_0 <= INITIATION_FREQ
            + STD_TOLERANCE {
            (SenderState::AwaitingAnswer, SenderAction::OfferFile)
        } else {
            (SenderState::AwaitingInitiation, SenderAction::Wait)
        },
        state == SenderState::AwaitingAnswer && event is Heard ==> sender_next(state, event)
            == if CONFIRMATION_ACCEPT_FREQ - STD_TOLERANCE <= event->Heard_0
            <= CONFIRMATION_ACCEPT_FREQ + STD_TOLERANCE {
            (SenderState::Sending, SenderAction::SendFile)
        } else if CONFIRMATION_DENY_FREQ - STD_TOLERANCE <= event->Heard_0
            <= CONFIRMATION_DENY_FREQ + STD_TOLERANCE {
            (SenderState::AwaitingInitiation, SenderAction::Wait)
        } else {
            (SenderState::AwaitingAnswer, SenderAction::Wait)
        },
        state == SenderState::AwaitingAnswer && event is AnswerTimedOut ==> sender_next(
            state,
            event,
        ) == (SenderState::Finished, SenderAction::GiveUp),
        sender_next(state, event).1 == SenderAction::GiveUp <==> (state
            == SenderState::AwaitingAnswer && event is AnswerTimedOut),
        sender_next(state, event).1 == SenderAction::Done <==> (state == SenderState::Sending
            && event is Sent),
        state == SenderState::Finished ==> sender_next(state, event) == (
            SenderState::Finished,
            SenderAction::Wait,
        ),
{
}

/// Over any run of events from a sender that waits for an initiation, the
/// file is offered before it is sent: every `SendFile` action comes after an
/// `OfferFile` action, and once the transfer is over nothing more is done.
pub proof fn lemma_sender_offers_before_sending(events: Seq<SenderEvent>, i: int)
    requires
        0 <= i < events.len(),
        sender_run(SenderState::AwaitingInitiation, events).1[i] == SenderAction::SendFile,
    ensures
        exists|j: int|
            0 <= j < i && #[trigger] sender_run(SenderState::AwaitingInitiation, events).1[j]
                == SenderAction::OfferFile,
    decreases events.len(),
{
    let run = sender_run(SenderState::AwaitingInitiation, events);
    let prev = events.drop_last();
    let before = sender_run(SenderState::AwaitingInitiation, prev);
    lemma_sender_run_len(SenderState::AwaitingInitiation, prev);
    assert(run.1 == before.1.push(sender_next(before.0, events.last()).1));
    if i < events.len() - 1 {
        assert(run.1[i] == before.1[i]);
        lemma_sender_offers_before_sending(prev, i);
        let j = choose|j: int| 0 <= j < i && #[trigger] before.1[j] == SenderAction::OfferFile;
        assert(run.1[j] == before.1[j]);
    } else {
        assert(before.0 == SenderState::AwaitingAnswer);
        lemma_sender_offered(prev);
        let j = choose|j: int| 0 <= j < prev.len() && #[trigger] before.1[j] == SenderAction::OfferFile;
        assert(run.1[j] == before.1[j]);
    }
}

/// A sender run has one action per event.
proof fn lemma_sender_run_len(state: SenderState, events: Seq<SenderEvent>)
    ensures
        sender_run(state, events).1.len() == events.len(),
    decreases events.len(),
{
    if events.len() > 0 {
        lemma_sender_run_len(state, events.drop_last());
    }
}

/// A sender that started out waiting for an initiation and now waits for an
/// answer, or is sending, has offered the file.
proof fn lemma_sender_offered(events: Seq<SenderEvent>)
    requires
        sender_run(SenderState::AwaitingInitiation, events).0 == SenderState::AwaitingAnswer
            || sender_run(SenderState::AwaitingInitiation, events).0 == SenderState::Sending,
    ensures
        exists|j: int|
            0 <= j < events.len() && #[trigger] sender_run(SenderState::AwaitingInitiation, events).1[j]
                == SenderAction::OfferFile,
    decreases events.len(),
{
    let run = sender_run(SenderState::AwaitingInitiation, events);
    let prev = events.drop_last();
    let before = sender_run(SenderState::AwaitingInitiation, prev);
    lemma_sender_run_len(SenderState::AwaitingInitiation, prev);
    assert(events.len() > 0);
    assert(run.1 == before.1.push(sender_next(before.0, events.last()).1));
    if sender_next(before.0, events.last()).1 == SenderAction::OfferFile {
        assert(run.1[events.len() - 1] == SenderAction::OfferFile);
    } else {
        assert(before.0 == SenderState::AwaitingAnswer || before.0 == SenderState::Sending);
        lemma_sender_offered(prev);
        let j = choose|j: int| 0 <= j < prev.len() && #[trigger] before.1[j] == SenderAction::OfferFile;
        assert(run.1[j] == before.1[j]);
    }
}

/// A time limit that ran out while listening for a packet.
#[derive(Debug, Clone, Copy, PartialEq, Eq)]
pub enum Timeout {
    /// No start tone within the waiting time.
    WaitingForStart,
    /// Too long without a tone inside a packet.
    BeforeEnd,
}

/// Which time limit, if any, has run out for a receiver that is or is not
/// inside a packet, has waited `waited_ns` nanoseconds in all and
/// `idle_ns` nanoseconds since the last tone.
pub fn receive_timeout(in_packet: bool, waited_ns: u128, idle_ns: u128) -> (r: Option<Timeout>)
    ensures
        r == Some(Timeout::WaitingForStart) <==> (!in_packet && waited_ns > WAIT_TIMEOUT_NS),
        r == Some(Timeout::BeforeEnd) <==> (in_packet && idle_ns > PACKET_IDLE_TIMEOUT_NS),
        r is None <==> ((in_packet || waited_ns <= WAIT_TIMEOUT_NS) && (!in_packet || idle_ns
            <= PACKET_IDLE_TIMEOUT_NS)),
{
    if !in_packet && waited_ns > WAIT_TIMEOUT_NS {
        Some(Timeout::WaitingForStart)
    } else if in_packet && idle_ns > PACKET_IDLE_TIMEOUT_NS {
        Some(Timeout::BeforeEnd)
    } else {
        None
    }
}

/// Whether the sender has waited too long, `waited_ns` nanoseconds, for an
/// answer.
pub fn confirmation_timed_out(waited_ns: u128) -> (r: bool)
    ensures
        r == (waited_ns > CONFIRMATION_TIMEOUT_NS),
{
    waited_ns > CONFIRMATION_TIMEOUT_NS
}

/// The tones a receiver hears, one per window of half a symbol, when the
/// tones of `transmission(encoded)` are played: each tone but the last is
/// heard in two windows, then the end tone in one (windows after it are
/// ignored, as `receiver_step` leaves a complete packet unchanged).
pub open spec fn heard(encoded: Seq<u8>) -> Seq<u32> {
    let tones = transmission(encoded);
    let body = tones.drop_last();
    Seq::new(2 * body.len(), |k: int| body[k / 2].freq).push(tones.last().freq)
}

/// The state of a receiver that has heard the start tone twice and then the
/// first `k` windows of the tones `m`.
spec fn receiver_after(m: Seq<Frequency>, k: int) -> ReceiverView {
    ReceiverView {
        in_packet: true,
        complete: false,
        freqs: seq![
            Frequency { freq: symbol_freq(15), len: SYMBOL_DURATION_MS },
        ] + Seq::new(k as nat, |j: int| m[j / 2]),
    }
}

/// Running on the first `k + 1` tones is one step after running on the
/// first `k`.
proof fn lemma_run_take(s: ReceiverView, t: Seq<u32>, k: int)
    requires
        0 <= k < t.len(),
    ensures
        receiver_run(s, t.take(k + 1)) == receiver_step(receiver_run(s, t.take(k)), t[k]),
{
    assert(t.take(k + 1).drop_last() =~= t.take(k));
}

/// After the start tone and the first `k` windows of the body, the
/// receiver holds the snapped start tone and those windows' tones.
proof fn lemma_receiver_prefix(encoded: Seq<u8>, k: int)
    requires
        0 <= k <= 2 * modulated(encoded).len(),
    ensures
        receiver_run(receiver_start(), heard(encoded).take(k + 2)) == receiver_after(
            modulated(encoded),
            k,
        ),
    decreases k,
{
    let m = modulated(encoded);
    let h = heard(encoded);
    let body = transmission(encoded).drop_last();
    assert(body =~= seq![Frequency { freq: SOT_FREQ, len: SYMBOL_DURATION_MS }] + m);
    let s0 = receiver_start();
    if k == 0 {
        assert(h[0] == SOT_FREQ && h[1] == SOT_FREQ);
        lemma_run_take(s0, h, 0);
        assert(h.take(0) =~= Seq::<u32>::empty());
        lemma_run_take(s0, h, 1);
        assert(nearest_symbol(SOT_FREQ) == 15);
        assert(receiver_after(m, 0).freqs =~= seq![
            Frequency { freq: symbol_freq(15), len: SYMBOL_DURATION_MS },
        ]);
    } else {
        let j = k - 1;
        lemma_receiver_prefix(encoded, j);
        lemma_run_take(s0, h, j + 2);
        let t = h[j + 2];
        assert((j + 2) / 2 == j / 2 + 1);
        assert(t == body[(j + 2) / 2].freq);
        assert(t == m[j / 2].freq);
        let b = encoded[(j / 2) / 2];
        crate::modulation::lemma_join_split(b);
        let n: u8 = if (j / 2) % 2 == 0 {
            crate::modulation::high_nibble(b)
        } else {
            crate::modulation::low_nibble(b)
        };
        assert(t == symbol_freq(n) && n < 16);
        lemma_quantise_code_tone(n);
        assert(!within(t, EOT_FREQ, STD_TOLERANCE));
        assert(m[j / 2] == Frequency { freq: t, len: SYMBOL_DURATION_MS });
        assert(receiver_after(m, k).freqs =~= receiver_after(m, j).freqs.push(m[j / 2]));
    }
}

/// A receiver that hears the tones of a transmission, each once per half
/// symbol, completes the packet and gets the transmitted bytes back.
pub proof fn lemma_receiver_gets_transmission(encoded: Seq<u8>)
    ensures
        receiver_run(receiver_start(), heard(encoded)).complete,
        received(receiver_run(receiver_start(), heard(encoded)).freqs) == Some(encoded),
{
    let m = modulated(encoded);
    let h = heard(encoded);
    let nm = m.len() as int;
    let s0 = receiver_start();
    lemma_receiver_prefix(encoded, 2 * nm);
    lemma_run_take(s0, h, 2 * nm + 2);
    assert(h.take(2 * nm + 3) =~= h);
    assert(h[2 * nm + 2] == EOT_FREQ);
    let fs = receiver_after(m, 2 * nm).freqs;
    let last = receiver_run(s0, h);
    assert(last.freqs == fs);
    let p = picked(fs);
    assert(p =~= m) by {
        assert forall|i: int| 0 <= i < nm implies p[i] == m[i] by {
            assert((2 * i + 1 - 1) / 2 == i);
        }
    }
    lemma_demodulate_modulate(encoded);
}

/// A packet sent over sound arrives: when the sender plays the tones of
/// what `encode_packet` made of a serialised packet and the receiver hears
/// each of them, the receiver gets the sent bytes, their envelope decodes to
/// the compressed packet, and that decompresses to the serialised packet.
pub proof fn lemma_transfer_roundtrip(serialized: Seq<u8>, encoded: Seq<u8>, compressed: Seq<u8>)
    requires
        is_encoding_of(encoded, compressed),
        fits_envelope(compressed),
        xz_decompressed(compressed) == Some(serialized),
    ensures
        received(receiver_run(receiver_start(), heard(encoded)).freqs) == Some(encoded),
        decoded_payload(encoded) == Ok::<Seq<u8>, DecodeError>(compressed),
        xz_decompressed(decoded_payload(encoded)->Ok_0) == Some(serialized),
{
    lemma_receiver_gets_transmission(encoded);
    lemma_packet_roundtrip(serialized, encoded, compressed);
}

} // verus!
