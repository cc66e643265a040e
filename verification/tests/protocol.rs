use echolot::audio::interleave_channels;
use echolot::frequency::Frequency;
use echolot::protocol::{
    answer_tone, classify_answer, confirmation_timed_out, initiation_tone, receive_timeout,
    sender_step, transmission_tones, Answer, PacketReceiver, SenderAction, SenderEvent,
    SenderState, Timeout,
};
use echolot::{
    CONFIRMATION_ACCEPT_FREQ, CONFIRMATION_DENY_FREQ, EOT_FREQ, INITIATION_FREQ, SOT_FREQ,
    SYMBOL_DURATION_MS,
};

fn hear_transmission(tones: &[Frequency]) -> PacketReceiver {
    let mut receiver = PacketReceiver::new();
    // noise before the start tone is ignored
    receiver.on_tone(300);
    receiver.on_tone(2000);
    for (i, tone) in tones.iter().enumerate() {
        if i + 1 == tones.len() {
            receiver.on_tone(tone.freq);
        } else {
            receiver.on_tone(tone.freq);
            receiver.on_tone(tone.freq);
        }
    }
    receiver
}

#[test]
fn receiver_gets_what_was_sent() {
    let data: Vec<u8> = vec![0x12, 0xAB, 0x00, 0xFF, 0x7E];
    let tones = transmission_tones(data.clone());
    assert_eq!(tones.len(), 2 * data.len() + 2);
    assert_eq!(tones[0].freq, SOT_FREQ);
    assert_eq!(tones[tones.len() - 1].freq, EOT_FREQ);
    assert_eq!(tones[tones.len() - 1].len, 500);
    let receiver = hear_transmission(&tones);
    assert!(receiver.is_complete());
    assert!(!receiver.is_in_packet());
    assert_eq!(receiver.finish(), Some(data));
}

#[test]
fn receiver_with_slightly_off_tones() {
    let mut receiver = PacketReceiver::new();
    receiver.on_tone(8200);
    assert!(receiver.is_in_packet());
    receiver.on_tone(8190);
    for f in [1024u32 + 256 + 60, 1024 + 256 - 70, 1024 + 2 * 256 + 100, 1024 + 2 * 256] {
        receiver.on_tone(f);
    }
    receiver.on_tone(8690);
    assert!(receiver.is_complete());
    assert_eq!(receiver.finish(), Some(vec![0x12]));
    // tones after the end are ignored
    receiver.on_tone(8192);
    assert!(!receiver.is_in_packet());
}

#[test]
fn answers_and_timeouts() {
    assert_eq!(classify_answer(3100), Some(Answer::Accept));
    assert_eq!(classify_answer(3119), Some(Answer::Accept));
    assert_eq!(classify_answer(4085), Some(Answer::Deny));
    assert_eq!(classify_answer(3500), None);
    assert_eq!(answer_tone(Answer::Accept).freq, 3100);
    assert_eq!(answer_tone(Answer::Deny).freq, 4100);
    assert_eq!(receive_timeout(false, 60_000_000_001, 0), Some(Timeout::WaitingForStart));
    assert_eq!(receive_timeout(false, 60_000_000_000, 99_000_000_000), None);
    assert_eq!(receive_timeout(true, 99_000_000_000, 8_000_000_001), Some(Timeout::BeforeEnd));
    assert_eq!(receive_timeout(true, 99_000_000_000, 8_000_000_000), None);
    assert!(confirmation_timed_out(30_000_000_001));
    assert!(!confirmation_timed_out(30_000_000_000));
}

#[test]
fn channel_layout() {
    assert_eq!(interleave_channels(&[1, 2, 3], 2), vec![1, 1, 2, 2, 3, 3]);
    assert_eq!(interleave_channels(&[1, 2, 3], 1), vec![1, 2, 3]);
    assert_eq!(interleave_channels(&[1, 2, 3], 0), vec![1, 2, 3]);
    assert_eq!(interleave_channels(&[0.5f32], 3), vec![0.5f32, 0.5, 0.5]);
}

#[test]
fn sender_waits_for_initiation() {
    let waiting = SenderState::AwaitingInitiation;
    assert_eq!(
        sender_step(waiting, SenderEvent::Heard(SOT_FREQ)),
        (waiting, SenderAction::Wait)
    );
    assert_eq!(
        sender_step(waiting, SenderEvent::Heard(CONFIRMATION_ACCEPT_FREQ)),
        (waiting, SenderAction::Wait)
    );
    assert_eq!(
        sender_step(waiting, SenderEvent::AnswerTimedOut),
        (waiting, SenderAction::Wait)
    );
    assert_eq!(
        sender_step(waiting, SenderEvent::Heard(INITIATION_FREQ + 20)),
        (SenderState::AwaitingAnswer, SenderAction::OfferFile)
    );
    assert_eq!(
        sender_step(waiting, SenderEvent::Heard(INITIATION_FREQ - 21)),
        (waiting, SenderAction::Wait)
    );
    let tone = initiation_tone();
    assert_eq!(tone.freq, INITIATION_FREQ);
    assert_eq!(tone.len, SYMBOL_DURATION_MS);
}

#[test]
fn sender_denial_returns_to_listening() {
    let offered = SenderState::AwaitingAnswer;
    assert_eq!(
        sender_step(offered, SenderEvent::Heard(CONFIRMATION_DENY_FREQ)),
        (SenderState::AwaitingInitiation, SenderAction::Wait)
    );
    assert_eq!(
        sender_step(offered, SenderEvent::Heard(1000)),
        (offered, SenderAction::Wait)
    );
    assert_eq!(
        sender_step(offered, SenderEvent::AnswerTimedOut),
        (SenderState::Finished, SenderAction::GiveUp)
    );
}

#[test]
fn sender_full_transfer() {
    let mut state = SenderState::AwaitingInitiation;
    let mut actions = Vec::new();
    let events = [
        SenderEvent::Heard(500),
        SenderEvent::Heard(INITIATION_FREQ),
        SenderEvent::Heard(CONFIRMATION_DENY_FREQ + 5),
        SenderEvent::Heard(INITIATION_FREQ - 3),
        SenderEvent::Heard(CONFIRMATION_ACCEPT_FREQ - 10),
        SenderEvent::Heard(INITIATION_FREQ),
        SenderEvent::Sent,
        SenderEvent::Heard(INITIATION_FREQ),
    ];
    for event in events {
        let (next, action) = sender_step(state, event);
        state = next;
        actions.push(action);
    }
    assert_eq!(
        actions,
        vec![
            SenderAction::Wait,
            SenderAction::OfferFile,
            SenderAction::Wait,
            SenderAction::OfferFile,
            SenderAction::SendFile,
            SenderAction::Wait,
            SenderAction::Done,
            SenderAction::Wait,
        ]
    );
    assert_eq!(state, SenderState::Finished);
}
