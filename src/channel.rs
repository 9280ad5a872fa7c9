use vstd::prelude::*;

verus! {

/// A sub-channel of a mailbox: the two reserved negotiation phases, then the
/// numbered application phases.
#[derive(Debug, Clone, Copy, PartialEq, Eq, Structural)]
pub enum Phase {
    Pake,
    Version,
    Numbered(u64),
}

/// The next application phase number of one direction of a channel. Each
/// number names the per-message key and nonce, so none may be handed out
/// twice.
#[derive(Debug)]
pub struct PhaseCounter {
    next: u64,
}

/// `after` is `before` once it has handed out `n`.
pub open spec fn issues(before: PhaseCounter, after: PhaseCounter, n: u64) -> bool {
    before.spec_next() == n && after.spec_next() == n + 1
}

impl PhaseCounter {
    pub closed spec fn spec_next(&self) -> u64 {
        self.next
    }

    pub fn new() -> (r: Self)
        ensures
            r.spec_next() == 0,
    {
        PhaseCounter { next: 0 }
    }

    /// The number that the next outgoing message will carry.
    pub fn peek(&self) -> (r: u64)
        ensures
            r == self.spec_next(),
    {
        self.next
    }

    /// Hands out the next phase number and moves past it; `None`, leaving the
    /// counter as it was, once every number has been used.
    pub fn next_phase(&mut self) -> (r: Option<u64>)
        ensures
            old(self).spec_next() < u64::MAX ==> r == Some(old(self).spec_next()) && issues(
                *old(self),
                *final(self),
                old(self).spec_next(),
            ),
            old(self).spec_next() == u64::MAX ==> r is None && final(self).spec_next() == old(
                self,
            ).spec_next(),
    {
        if self.next == u64::MAX {
            None
        } else {
            let n = self.next;
            self.next = n + 1;
            Some(n)
        }
    }
}

/// Over any run of sends on one counter, each handing out a number, the
/// numbers strictly increase, so no two sends share one.
pub proof fn lemma_phases_never_reused(states: Seq<PhaseCounter>, issued: Seq<u64>)
    requires
        states.len() == issued.len() + 1,
        forall|k: int| 0 <= k < issued.len() ==> issues(states[k], states[k + 1], #[trigger] issued[k]),
    ensures
        forall|i: int, j: int| 0 <= i < j < issued.len() ==> issued[i] < issued[j],
{
    assert forall|i: int, j: int| 0 <= i < j < issued.len() implies issued[i] < issued[j] by {
        lemma_issued_grows(states, issued, i, j);
    }
}

proof fn lemma_issued_grows(states: Seq<PhaseCounter>, issued: Seq<u64>, i: int, j: int)
    requires
        states.len() == issued.len() + 1,
        forall|k: int| 0 <= k < issued.len() ==> issues(states[k], states[k + 1], #[trigger] issued[k]),
        0 <= i < j < issued.len(),
    ensures
        issued[i] < issued[j],
    decreases j - i,
{
    assert(issues(states[j - 1], states[j], issued[j - 1]));
    assert(issues(states[j], states[j + 1], issued[j]));
    if i < j - 1 {
        lemma_issued_grows(states, issued, i, j - 1);
    }
}

/// Consecutive messages of an established channel that failed to decrypt.
/// One failure fails only its receive; a run of `limit` of them means the
/// keys differ, and the channel is to be closed.
#[derive(Debug)]
pub struct AuthFailures {
    consecutive: u64,
    limit: u64,
}

impl AuthFailures {
    pub closed spec fn spec_consecutive(&self) -> u64 {
        self.consecutive
    }

    pub closed spec fn spec_limit(&self) -> u64 {
        self.limit
    }

    pub open spec fn wf(&self) -> bool {
        self.spec_consecutive() <= self.spec_limit()
    }

    /// A tracker that closes the channel after `limit` failures in a row;
    /// `limit` is at least 1.
    pub fn new(limit: u64) -> (r: Self)
        requires
            limit >= 1,
        ensures
            r.wf(),
            r.spec_consecutive() == 0,
            r.spec_limit() == limit,
    {
        AuthFailures { consecutive: 0, limit }
    }

    /// A message decrypted: the run of failures is over.
    pub fn record_success(&mut self)
        ensures
            final(self).spec_consecutive() == 0,
            final(self).spec_limit() == old(self).spec_limit(),
    {
        self.consecutive = 0;
    }

    /// A message failed to decrypt; returns whether the channel must now be
    /// closed.
    pub fn record_failure(&mut self) -> (close: bool)
        requires
            old(self).wf(),
        ensures
            final(self).wf(),
            final(self).spec_limit() == old(self).spec_limit(),
            final(self).spec_consecutive() == if old(self).spec_consecutive() < old(
                self,
            ).spec_limit() {
                (old(self).spec_consecutive() + 1) as u64
            } else {
                old(self).spec_consecutive()
            },
            close == (final(self).spec_consecutive() == final(self).spec_limit()),
    {
        if self.consecutive < self.limit {
            self.consecutive = self.consecutive + 1;
        }
        self.consecutive == self.limit
    }
}

/// The last message received on each phase.
pub open spec fn phase_map(entries: Seq<(Phase, Vec<u8>)>) -> Map<Phase, Seq<u8>>
    decreases entries.len(),
{
    if entries.len() == 0 {
        Map::empty()
    } else {
        phase_map(entries.drop_last()).insert(entries.last().0, entries.last().1@)
    }
}

pub open spec fn unique_phases(entries: Seq<(Phase, Vec<u8>)>) -> bool {
    forall|i: int, j: int|
        0 <= i < j < entries.len() ==> #[trigger] entries[i].0 != #[trigger] entries[j].0
}

proof fn lemma_phase_map_domain(entries: Seq<(Phase, Vec<u8>)>, p: Phase)
    ensures
        phase_map(entries).contains_key(p) <==> exists|i: int|
            0 <= i < entries.len() && #[trigger] entries[i].0 == p,
    decreases entries.len(),
{
    if entries.len() > 0 {
        let prev = entries.drop_last();
        lemma_phase_map_domain(prev, p);
        if phase_map(prev).contains_key(p) {
            let i = choose|i: int| 0 <= i < prev.len() && #[trigger] prev[i].0 == p;
            assert(entries[i].0 == p);
        }
        if exists|i: int| 0 <= i < entries.len() && #[trigger] entries[i].0 == p {
            let i = choose|i: int| 0 <= i < entries.len() && #[trigger] entries[i].0 == p;
            if i < prev.len() {
                assert(prev[i].0 == p);
            }
        }
    }
}

proof fn lemma_phase_map_update(entries: Seq<(Phase, Vec<u8>)>, i: int, body: Vec<u8>)
    requires
        unique_phases(entries),
        0 <= i < entries.len(),
    ensures
        phase_map(entries.update(i, (entries[i].0, body))) == phase_map(entries).insert(
            entries[i].0,
            body@,
        ),
    decreases entries.len(),
{
    let p = entries[i].0;
    let upd = entries.update(i, (p, body));
    let prev = entries.drop_last();
    if i == entries.len() - 1 {
        assert(upd.drop_last() =~= prev);
        assert(phase_map(upd) =~= phase_map(entries).insert(p, body@));
    } else {
        lemma_phase_map_update(prev, i, body);
        assert(upd.drop_last() =~= prev.update(i, (p, body)));
        assert(entries.last().0 != p);
        assert(phase_map(upd) =~= phase_map(entries).insert(p, body@));
    }
}

/// Received messages, deduplicated by phase: a later message on a phase
/// replaces the earlier one, so at most one value per phase is delivered.
#[derive(Debug)]
pub struct Inbox {
    entries: Vec<(Phase, Vec<u8>)>,
}

impl Inbox {
    pub closed spec fn view(&self) -> Map<Phase, Seq<u8>> {
        phase_map(self.entries@)
    }

    pub closed spec fn wf(&self) -> bool {
        unique_phases(self.entries@)
    }

    pub fn new() -> (r: Self)
        ensures
            r.wf(),
            r.view() == Map::<Phase, Seq<u8>>::empty(),
    {
        Inbox { entries: Vec::new() }
    }

    /// Records `body` as the message of `phase`, replacing any earlier one.
    pub fn deliver(&mut self, phase: Phase, body: Vec<u8>)
        requires
            old(self).wf(),
        ensures
            final(self).wf(),
            final(self).view() == old(self).view().insert(phase, body@),
    {
        let mut i: usize = 0;
        while i < self.entries.len()
            invariant
                0 <= i <= self.entries.len(),
                self.entries@ == old(self).entries@,
                unique_phases(self.entries@),
                forall|k: int| 0 <= k < i ==> (#[trigger] self.entries@[k]).0 != phase,
            decreases self.entries.len() - i,
        {
            if self.entries[i].0 == phase {
                let ghost before = self.entries@;
                proof {
                    lemma_phase_map_update(self.entries@, i as int, body);
                }
                self.entries[i] = (phase, body);
                proof {
                    assert(self.entries@ =~= before.update(i as int, (before[i as int].0, body)));
                    assert forall|a: int, b: int| 0 <= a < b < self.entries@.len() implies #[trigger] self.entries@[a].0
                        != #[trigger] self.entries@[b].0 by {
                        assert(self.entries@[a].0 == before[a].0);
                        assert(self.entries@[b].0 == before[b].0);
                    }
                }
                return;
            }
            i = i + 1;
        }
        self.entries.push((phase, body));
        proof {
            assert(self.entries@.drop_last() =~= old(self).entries@);
            assert forall|a: int, b: int| 0 <= a < b < self.entries@.len() implies #[trigger] self.entries@[a].0
                != #[trigger] self.entries@[b].0 by {
                if b == self.entries@.len() - 1 {
                    assert(self.entries@[a] == old(self).entries@[a]);
                } else {
                    assert(self.entries@[a] == old(self).entries@[a]);
                    assert(self.entries@[b] == old(self).entries@[b]);
                }
            }
        }
    }

    /// The message last received on `phase`, if any.
    pub fn get(&self, phase: Phase) -> (r: Option<&Vec<u8>>)
        requires
            self.wf(),
        ensures
            r is Some <==> self.view().contains_key(phase),
            r matches Some(b) ==> b@ == self.view()[phase],
    {
        let mut i: usize = 0;
        while i < self.entries.len()
            invariant
                0 <= i <= self.entries.len(),
                unique_phases(self.entries@),
                forall|k: int| 0 <= k < i ==> (#[trigger] self.entries@[k]).0 != phase,
            decreases self.entries.len() - i,
        {
            if self.entries[i].0 == phase {
                proof {
                    lemma_phase_map_lookup(self.entries@, i as int);
                }
                return Some(&self.entries[i].1);
            }
            i = i + 1;
        }
        proof {
            lemma_phase_map_domain(self.entries@, phase);
        }
        None
    }

    pub fn len(&self) -> (r: usize)
        requires
            self.wf(),
        ensures
            r == self.view().len(),
    {
        proof {
            lemma_phase_map_len(self.entries@);
        }
        self.entries.len()
    }
}

proof fn lemma_phase_map_lookup(entries: Seq<(Phase, Vec<u8>)>, i: int)
    requires
        unique_phases(entries),
        0 <= i < entries.len(),
    ensures
        phase_map(entries).contains_key(entries[i].0),
        phase_map(entries)[entries[i].0] == entries[i].1@,
    decreases entries.len(),
{
    if i < entries.len() - 1 {
        let prev = entries.drop_last();
        lemma_phase_map_lookup(prev, i);
        assert(entries.last().0 != entries[i].0);
    }
}

proof fn lemma_phase_map_len(entries: Seq<(Phase, Vec<u8>)>)
    requires
        unique_phases(entries),
    ensures
        phase_map(entries).dom().finite(),
        phase_map(entries).len() == entries.len(),
    decreases entries.len(),
{
    if entries.len() > 0 {
        let prev = entries.drop_last();
        lemma_phase_map_len(prev);
        lemma_phase_map_domain(prev, entries.last().0);
        if phase_map(prev).contains_key(entries.last().0) {
            let i = choose|i: int| 0 <= i < prev.len() && #[trigger] prev[i].0 == entries.last().0;
            assert(entries[i].0 == entries[entries.len() - 1].0);
        }
    }
}

} // verus!
