use vstd::prelude::*;
use crate::code::{code_error, code_error_text, lemma_code_round_trip, parse_code, split_dash, valid_code};
use crate::error::{ErrorKind, WormholeError};

verus! {

/// Where a handshake stands. `Established` and `Failed` are terminal.
#[derive(Debug, Clone, Copy, PartialEq, Eq, Structural)]
pub enum HandshakeState {
    Idle,
    CodeEstablished,
    PakeExchanged,
    VersionExchanged,
    Established,
    Failed,
}

/// What the rendezvous connection reports to the handshake.
#[derive(Debug, Clone, Copy, PartialEq, Eq, Structural)]
pub enum HandshakeEvent {
    /// The nameplate of the code is claimed and its mailbox is open.
    NameplateClaimed,
    /// The peer's PAKE message arrived.
    PakeReceived,
    /// The peer's encrypted version message arrived.
    VersionReceived,
    /// The peer's version message decrypted under the session key.
    VersionAccepted,
    /// A transport, relay or protocol failure.
    Failure,
    /// The caller abandoned the handshake.
    Cancelled,
}

/// What the driver of a handshake must do after a step.
#[derive(Debug, Clone, Copy, PartialEq, Eq, Structural)]
pub struct HandshakeActions {
    /// Send our PAKE message on the mailbox.
    pub send_pake: bool,
    /// Send our encrypted version message.
    pub send_version: bool,
    /// Release the nameplate on the relay.
    pub release_nameplate: bool,
    /// Close the mailbox on the relay.
    pub close_mailbox: bool,
}

pub open spec fn is_terminal(s: HandshakeState) -> bool {
    s == HandshakeState::Established || s == HandshakeState::Failed
}

/// The mailbox is open from the claim on; an established channel keeps it.
pub open spec fn holds_mailbox(s: HandshakeState) -> bool {
    s != HandshakeState::Idle && s != HandshakeState::Failed
}

pub open spec fn next_state(s: HandshakeState, e: HandshakeEvent) -> HandshakeState {
    if is_terminal(s) {
        s
    } else {
        match (s, e) {
            (HandshakeState::Idle, HandshakeEvent::NameplateClaimed) => HandshakeState::CodeEstablished,
            (HandshakeState::CodeEstablished, HandshakeEvent::PakeReceived) => HandshakeState::PakeExchanged,
            (HandshakeState::PakeExchanged, HandshakeEvent::VersionReceived) => HandshakeState::VersionExchanged,
            (HandshakeState::VersionExchanged, HandshakeEvent::VersionAccepted) => HandshakeState::Established,
            _ => HandshakeState::Failed,
        }
    }
}

pub open spec fn step_actions(s: HandshakeState, e: HandshakeEvent) -> HandshakeActions {
    let t = next_state(s, e);
    HandshakeActions {
        send_pake: s == HandshakeState::Idle && t == HandshakeState::CodeEstablished,
        send_version: s == HandshakeState::CodeEstablished && t == HandshakeState::PakeExchanged,
        release_nameplate: s == HandshakeState::CodeEstablished && t != s,
        close_mailbox: holds_mailbox(s) && t == HandshakeState::Failed,
    }
}

/// Advances the handshake by one event. The nameplate is released as soon as
/// the peer's PAKE message shows that both sides hold the mailbox, or when the
/// handshake fails before that; the mailbox is closed on every failure that
/// follows the claim. Events after a terminal state change nothing.
pub fn step(s: HandshakeState, e: HandshakeEvent) -> (r: (HandshakeState, HandshakeActions))
    ensures
        r.0 == next_state(s, e),
        r.1 == step_actions(s, e),
{
    let t = match s {
        HandshakeState::Established => HandshakeState::Established,
        HandshakeState::Failed => HandshakeState::Failed,
        HandshakeState::Idle => match e {
            HandshakeEvent::NameplateClaimed => HandshakeState::CodeEstablished,
            _ => HandshakeState::Failed,
        },
        HandshakeState::CodeEstablished => match e {
            HandshakeEvent::PakeReceived => HandshakeState::PakeExchanged,
            _ => HandshakeState::Failed,
        },
        HandshakeState::PakeExchanged => match e {
            HandshakeEvent::VersionReceived => HandshakeState::VersionExchanged,
            _ => HandshakeState::Failed,
        },
        HandshakeState::VersionExchanged => match e {
            HandshakeEvent::VersionAccepted => HandshakeState::Established,
            _ => HandshakeState::Failed,
        },
    };
    let held = match s {
        HandshakeState::Idle => false,
        HandshakeState::Failed => false,
        _ => true,
    };
    let was_code = s == HandshakeState::CodeEstablished;
    let actions = HandshakeActions {
        send_pake: s == HandshakeState::Idle && t == HandshakeState::CodeEstablished,
        send_version: was_code && t == HandshakeState::PakeExchanged,
        release_nameplate: was_code && t != s,
        close_mailbox: held && t == HandshakeState::Failed,
    };
    (t, actions)
}

/// One handshake attempt, driven by the events its connection reports.
#[derive(Debug)]
pub struct Handshaker {
    state: HandshakeState,
}

impl Handshaker {
    pub closed spec fn spec_state(&self) -> HandshakeState {
        self.state
    }

    pub fn new() -> (r: Self)
        ensures
            r.spec_state() == HandshakeState::Idle,
    {
        Handshaker { state: HandshakeState::Idle }
    }

    pub fn state(&self) -> (r: HandshakeState)
        ensures
            r == self.spec_state(),
    {
        self.state
    }

    pub fn handle(&mut self, e: HandshakeEvent) -> (r: HandshakeActions)
        ensures
            final(self).spec_state() == next_state(old(self).spec_state(), e),
            r == step_actions(old(self).spec_state(), e),
    {
        let (t, actions) = step(self.state, e);
        self.state = t;
        actions
    }
}

/// The state after feeding `events` to a fresh handshake.
pub open spec fn run(events: Seq<HandshakeEvent>) -> HandshakeState
    decreases events.len(),
{
    if events.len() == 0 {
        HandshakeState::Idle
    } else {
        next_state(run(events.drop_last()), events.last())
    }
}

/// How many steps of the run had the given effect.
pub open spec fn count_steps(
    events: Seq<HandshakeEvent>,
    effect: spec_fn(HandshakeState, HandshakeEvent) -> bool,
) -> nat
    decreases events.len(),
{
    if events.len() == 0 {
        0
    } else {
        let prev = events.drop_last();
        count_steps(prev, effect) + if effect(run(prev), events.last()) {
            1nat
        } else {
            0nat
        }
    }
}

pub open spec fn claims(s: HandshakeState, e: HandshakeEvent) -> bool {
    step_actions(s, e).send_pake
}

pub open spec fn releases(s: HandshakeState, e: HandshakeEvent) -> bool {
    step_actions(s, e).release_nameplate
}

pub open spec fn closes(s: HandshakeState, e: HandshakeEvent) -> bool {
    step_actions(s, e).close_mailbox
}

/// Along any sequence of events the nameplate is claimed at most once, and
/// every claim is matched by exactly one release, except while the handshake
/// still waits in `CodeEstablished`; in particular a handshake that has
/// reached `Established` or `Failed`, by success, failure or cancellation,
/// has released its nameplate exactly once if it ever claimed it. Likewise
/// the mailbox is closed exactly once on every failure after the claim, and
/// never otherwise.
pub proof fn lemma_nameplate_released_once(events: Seq<HandshakeEvent>)
    ensures
        count_steps(events, |s, e| claims(s, e)) <= 1,
        run(events) == HandshakeState::Idle ==> count_steps(events, |s, e| claims(s, e)) == 0,
        count_steps(events, |s, e| releases(s, e)) + (if run(events)
            == HandshakeState::CodeEstablished {
            1nat
        } else {
            0nat
        }) == count_steps(events, |s, e| claims(s, e)),
        count_steps(events, |s, e| closes(s, e)) + (if holds_mailbox(run(events)) {
            1nat
        } else {
            0nat
        }) == count_steps(events, |s, e| claims(s, e)),
        is_terminal(run(events)) ==> count_steps(events, |s, e| releases(s, e)) == count_steps(
            events,
            |s, e| claims(s, e),
        ),
    decreases events.len(),
{
    if events.len() > 0 {
        lemma_nameplate_released_once(events.drop_last());
    }
}

/// Whether a nameplate is to be allocated when it is not yet claimed: only
/// when the caller did not state that a peer already holds it.
pub fn allocate_nameplate(expect_claimed_nameplate: Option<bool>) -> (r: bool)
    ensures
        r == !(expect_claimed_nameplate == Some(true)),
{
    match expect_claimed_nameplate {
        Some(true) => false,
        _ => true,
    }
}

/// What to do with a nameplate before claiming it.
#[derive(Debug, Clone, Copy, PartialEq, Eq, Structural)]
pub enum ClaimDecision {
    /// Claim the nameplate and open its mailbox.
    Claim,
    /// Stop: the caller expected a peer on a nameplate that nobody holds.
    UnexpectedNameplateState,
}

/// Decides on a nameplate given whether the relay lists it as claimed. A
/// caller that expects a peer to hold the nameplate fails at once on an
/// unclaimed one, without claiming it.
pub fn decide_claim(expect_claimed_nameplate: bool, listed_as_claimed: bool) -> (r: ClaimDecision)
    ensures
        r == (if expect_claimed_nameplate && !listed_as_claimed {
            ClaimDecision::UnexpectedNameplateState
        } else {
            ClaimDecision::Claim
        }),
{
    if expect_claimed_nameplate && !listed_as_claimed {
        ClaimDecision::UnexpectedNameplateState
    } else {
        ClaimDecision::Claim
    }
}

/// What a connection with a given code hands to the rendezvous client.
#[derive(Debug)]
pub struct ConnectPlan {
    /// The code, checked against the code grammar.
    pub code: String,
    /// Whether the nameplate may be allocated when nobody holds it yet.
    pub allocate: bool,
}

/// Checks a code typed by the user before any connection is made, and fixes
/// the nameplate policy; an absent `expect_claimed_nameplate` means `false`.
/// A malformed code fails at once with the format error.
pub fn plan_connect_with_code(code: &str, expect_claimed_nameplate: Option<bool>) -> (r: Result<
    ConnectPlan,
    WormholeError,
>)
    ensures
        r is Ok <==> valid_code(code@),
        r matches Ok(p) ==> p.code@ == code@ && p.allocate == !(expect_claimed_nameplate == Some(
            true,
        )),
        r matches Err(e) ==> e.spec_kind() == ErrorKind::CodeFormat(code_error(code@))
            && e.spec_message() == code_error_text(code_error(code@)),
{
    match parse_code(code) {
        Ok(parsed) => {
            let text = parsed.format();
            proof {
                lemma_code_round_trip(code@, split_dash(code@)[0], split_dash(code@).drop_first());
            }
            Ok(ConnectPlan { code: text, allocate: allocate_nameplate(expect_claimed_nameplate) })
        },
        Err(e) => Err(WormholeError::new(ErrorKind::CodeFormat(e), e.describe())),
    }
}

} // verus!
