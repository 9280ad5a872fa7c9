use wormhole_handshake::channel::{AuthFailures, Inbox, Phase, PhaseCounter};
use wormhole_handshake::handshake::{
    allocate_nameplate, decide_claim, step, ClaimDecision, HandshakeEvent, HandshakeState,
    Handshaker,
};

use HandshakeEvent::{Cancelled, Failure, NameplateClaimed, PakeReceived, VersionAccepted, VersionReceived};

fn drive(events: &[HandshakeEvent]) -> (HandshakeState, usize, usize, usize) {
    let mut h = Handshaker::new();
    let (mut claims, mut releases, mut closes) = (0, 0, 0);
    for e in events {
        let a = h.handle(*e);
        claims += a.send_pake as usize;
        releases += a.release_nameplate as usize;
        closes += a.close_mailbox as usize;
    }
    (h.state(), claims, releases, closes)
}

#[test]
fn successful_handshake_releases_once() {
    let r = drive(&[NameplateClaimed, PakeReceived, VersionReceived, VersionAccepted]);
    assert_eq!(r, (HandshakeState::Established, 1, 1, 0));
}

#[test]
fn failure_at_each_transition_releases_once() {
    let full = [NameplateClaimed, PakeReceived, VersionReceived, VersionAccepted];
    for cut in 1..full.len() {
        for fault in [Failure, Cancelled] {
            let mut evs = full[..cut].to_vec();
            evs.push(fault);
            evs.push(Failure);
            let (state, claims, releases, closes) = drive(&evs);
            assert_eq!(state, HandshakeState::Failed);
            assert_eq!((claims, releases, closes), (1, 1, 1));
        }
    }
}

#[test]
fn failure_before_the_claim_releases_nothing() {
    assert_eq!(drive(&[Failure]), (HandshakeState::Failed, 0, 0, 0));
    assert_eq!(drive(&[Cancelled, NameplateClaimed]), (HandshakeState::Failed, 0, 0, 0));
}

#[test]
fn out_of_order_event_fails_the_handshake() {
    let r = drive(&[NameplateClaimed, VersionReceived]);
    assert_eq!(r, (HandshakeState::Failed, 1, 1, 1));
}

#[test]
fn waiting_for_the_peer_keeps_the_nameplate() {
    let (s, a) = step(HandshakeState::Idle, NameplateClaimed);
    assert_eq!(s, HandshakeState::CodeEstablished);
    assert!(a.send_pake && !a.release_nameplate && !a.close_mailbox);
    let (s, a) = step(HandshakeState::CodeEstablished, PakeReceived);
    assert_eq!(s, HandshakeState::PakeExchanged);
    assert!(a.send_version && a.release_nameplate);
    let (s, a) = step(HandshakeState::Established, Failure);
    assert_eq!(s, HandshakeState::Established);
    assert!(!a.close_mailbox && !a.release_nameplate);
}

#[test]
fn expected_claim_on_free_nameplate_fails_without_claiming() {
    assert_eq!(decide_claim(true, false), ClaimDecision::UnexpectedNameplateState);
    assert_eq!(decide_claim(true, true), ClaimDecision::Claim);
    assert_eq!(decide_claim(false, false), ClaimDecision::Claim);
    assert!(!allocate_nameplate(Some(true)));
    assert!(allocate_nameplate(Some(false)));
    assert!(allocate_nameplate(None));
}

#[test]
fn two_peers_reach_established_and_exchange_data() {
    let events = [NameplateClaimed, PakeReceived, VersionReceived, VersionAccepted];
    let mut a = Handshaker::new();
    let mut b = Handshaker::new();
    for e in events {
        a.handle(e);
        b.handle(e);
    }
    assert_eq!(a.state(), HandshakeState::Established);
    assert_eq!(b.state(), HandshakeState::Established);
    let mut out = PhaseCounter::new();
    let phase = out.next_phase().unwrap();
    let mut inbox = Inbox::new();
    inbox.deliver(Phase::Numbered(phase), b"hello".to_vec());
    assert_eq!(inbox.get(Phase::Numbered(0)), Some(&b"hello".to_vec()));
}

#[test]
fn phase_numbers_strictly_increase() {
    let mut c = PhaseCounter::new();
    let mut last = None;
    for _ in 0..1000 {
        assert_eq!(Some(c.peek()), Some(c.peek()));
        let n = c.next_phase().unwrap();
        if let Some(prev) = last {
            assert!(n > prev);
        }
        last = Some(n);
    }
    assert_eq!(c.peek(), 1000);
}

#[test]
fn inbox_keeps_the_last_message_per_phase() {
    let mut inbox = Inbox::new();
    assert_eq!(inbox.len(), 0);
    assert_eq!(inbox.get(Phase::Pake), None);
    inbox.deliver(Phase::Pake, vec![1]);
    inbox.deliver(Phase::Version, vec![2]);
    inbox.deliver(Phase::Pake, vec![3]);
    inbox.deliver(Phase::Numbered(0), vec![]);
    assert_eq!(inbox.len(), 3);
    assert_eq!(inbox.get(Phase::Pake), Some(&vec![3]));
    assert_eq!(inbox.get(Phase::Version), Some(&vec![2]));
    assert_eq!(inbox.get(Phase::Numbered(0)), Some(&vec![]));
    assert_eq!(inbox.get(Phase::Numbered(1)), None);
}

#[test]
fn repeated_authentication_failures_close_the_channel() {
    let mut f = AuthFailures::new(3);
    assert!(!f.record_failure());
    assert!(!f.record_failure());
    f.record_success();
    assert!(!f.record_failure());
    assert!(!f.record_failure());
    assert!(f.record_failure());
    assert!(f.record_failure());
}
