//! The decisions of cached playback: which waiting roll starts, waits or
//! fails in a pass over the queue, which composition queue is refilled
//! next, what a finished background job does to its queue, and why a
//! playback in progress stops.
//!
//! The world is read by the caller; these functions decide from what it
//! read, so the order in which rolls of one arena start is fixed here.

use vstd::prelude::*;

use super::cache::PRECOMPUTE_QUEUE_DEPTH;
use super::cached_roll::RollFailure;

verus! {

/// What the world shows about a waiting roll when its turn comes.
#[derive(Debug)]
pub struct WaitingFacts {
    /// The roll's arena still exists.
    pub arena_exists: bool,
    /// The roll needs no physical dice.
    pub composition_empty: bool,
    /// A queue of recorded throws exists for the roll's composition.
    pub queue_exists: bool,
    /// Why that queue cannot be filled, if it cannot.
    pub failure: Option<RollFailure>,
    /// Recorded throws ready in that queue.
    pub ready: usize,
    /// The queue's arena snapshot and geometry are prepared.
    pub prepared: bool,
}

/// What the world shows once a ready throw was taken for a roll.
#[derive(Debug)]
pub struct TakenFacts {
    /// Whether the throw's settled faces could be turned to the roll's faces.
    pub corrections: Result<(), RollFailure>,
    /// The arena's diceset still exists.
    pub diceset_exists: bool,
    /// The diceset's meshes and materials are loaded.
    pub handles_ready: bool,
}

/// The step for the roll whose turn it is.
#[derive(Clone, Debug, PartialEq, Eq, Structural)]
pub enum StartStep {
    /// Stay in the queue; the arena waits for this roll.
    Wait,
    /// Report the roll as failed.
    Fail(RollFailure),
    /// Report the roll as complete: it needs no dice.
    Complete,
    /// Take the queue's oldest ready throw and prepare to play it.
    Take,
}

/// How a roll's turn ended in a pass.
#[derive(Clone, Copy, Debug, PartialEq, Eq, Structural)]
pub enum Turn {
    /// It stays queued, in order.
    Waited,
    /// It was reported as failed.
    Failed,
    /// It was reported as complete without dice.
    Completed,
    /// Its playback started.
    Played,
}

/// The step for a roll whose arena may be `blocked` (busy with a playback,
/// or held by an earlier roll that waits), given what the world shows.
pub open spec fn spec_start_step(blocked: bool, facts: WaitingFacts) -> StartStep {
    if blocked {
        StartStep::Wait
    } else if !facts.arena_exists {
        StartStep::Fail(RollFailure::MissingArena)
    } else if facts.composition_empty {
        StartStep::Complete
    } else if !facts.queue_exists {
        StartStep::Fail(RollFailure::MissingArena)
    } else if facts.failure is Some && facts.ready == 0 {
        StartStep::Fail(facts.failure->0)
    } else if !facts.prepared || facts.ready == 0 {
        StartStep::Wait
    } else {
        StartStep::Take
    }
}

/// Why a roll whose throw was taken cannot be played, if it cannot.
pub open spec fn spec_taken_failure(facts: TakenFacts) -> Option<RollFailure> {
    match facts.corrections {
        Err(reason) => Some(reason),
        Ok(_) => if !facts.diceset_exists {
            Some(RollFailure::MissingDiceset)
        } else if !facts.handles_ready {
            Some(RollFailure::AssetUnavailable)
        } else {
            None
        },
    }
}

/// The indices of the turns that waited, in order.
pub open spec fn waited_indices(turns: Seq<Turn>) -> Seq<usize>
    decreases turns.len(),
{
    if turns.len() == 0 {
        Seq::empty()
    } else if turns.last() == Turn::Waited {
        waited_indices(turns.drop_last()).push((turns.len() - 1) as usize)
    } else {
        waited_indices(turns.drop_last())
    }
}

/// Whether `x` is among `items`.
fn holds(items: &Vec<u64>, x: u64) -> (found: bool)
    ensures
        found == items@.contains(x),
{
    let mut i: usize = 0;
    while i < items.len()
        invariant
            i <= items@.len(),
            forall|j: int| 0 <= j < i ==> items@[j] != x,
        decreases items@.len() - i,
    {
        if items[i] == x {
            return true;
        }
        i = i + 1;
    }
    false
}

/// One pass over the queue of waiting rolls, in submission order. Each roll
/// in turn waits, fails, completes or starts playing. An arena that is busy
/// with a playback, or whose earlier roll waits or started, holds every
/// later roll of that arena in the queue.
pub struct StartPass {
    arenas: Vec<u64>,
    active: Vec<u64>,
    blocked: Vec<u64>,
    waited: Vec<usize>,
    next: usize,
    taking: bool,
    turns: Ghost<Seq<Turn>>,
}

impl StartPass {
    /// The arena of each roll in the queue, in order.
    pub closed spec fn arenas(self) -> Seq<u64> {
        self.arenas@
    }

    /// The arenas busy with a playback when the pass began.
    pub closed spec fn active(self) -> Seq<u64> {
        self.active@
    }

    /// How the turns so far ended, one per roll from the front of the queue.
    pub closed spec fn turns(self) -> Seq<Turn> {
        self.turns@
    }

    /// A throw was taken for the current roll and its playback is being prepared.
    pub closed spec fn taking(self) -> bool {
        self.taking
    }

    /// The arena cannot start a playback now: it was busy when the pass
    /// began, or an earlier roll of it waited or started.
    pub open spec fn blocked(self, arena: u64) -> bool {
        ||| self.active().contains(arena)
        ||| exists|i: int|
            0 <= i < self.turns().len() && self.arenas()[i] == arena && (self.turns()[i] == Turn::Waited
                || self.turns()[i] == Turn::Played)
    }

    /// The pass is consistent: what it holds matches the turns taken so far.
    pub closed spec fn wf(self) -> bool {
        &&& self.next == self.turns@.len()
        &&& self.next <= self.arenas@.len()
        &&& self.taking ==> self.next < self.arenas@.len() && !self.blocked(self.arenas@[self.next as int])
        &&& forall|a: u64| self.blocked@.contains(a) <==> self.blocked(a)
        &&& self.waited@ == waited_indices(self.turns@)
        &&& self.free_at_play()
    }

    /// Each started turn found its arena free: not busy when the pass
    /// began, and no earlier roll of it waited or started.
    closed spec fn free_at_play(self) -> bool {
        forall|j: int|
            0 <= j < self.turns@.len() && self.turns@[j] == Turn::Played ==> {
                &&& !self.active@.contains(self.arenas@[j])
                &&& forall|i: int|
                    0 <= i < j && self.arenas@[i] == self.arenas@[j] ==> self.turns@[i] != Turn::Waited
                        && self.turns@[i] != Turn::Played
            }
    }

    /// Begins a pass over rolls of these arenas, in queue order, while the
    /// `active` arenas are busy with a playback.
    pub fn new(arenas: Vec<u64>, active: Vec<u64>) -> (pass: Self)
        ensures
            pass.wf(),
            pass.arenas() == arenas@,
            pass.active() == active@,
            pass.turns() == Seq::<Turn>::empty(),
            !pass.taking(),
    {
        let blocked = active.clone();
        assert(blocked@ =~= active@);
        let pass = StartPass {
            arenas,
            active,
            blocked,
            waited: Vec::new(),
            next: 0,
            taking: false,
            turns: Ghost(Seq::empty()),
        };
        assert(pass.waited@ =~= waited_indices(pass.turns@));
        pass
    }

    /// The position in the queue of the roll whose turn it is, if any remains.
    pub fn current(&self) -> (index: Option<usize>)
        requires
            self.wf(),
        ensures
            self.turns().len() < self.arenas().len() ==> index == Some(self.turns().len() as usize),
            self.turns().len() >= self.arenas().len() ==> index is None,
    {
        if self.next < self.arenas.len() {
            Some(self.next)
        } else {
            None
        }
    }

    /// Decides the current roll's step from what the world shows. A roll
    /// that waits keeps its arena waiting for the rest of the pass; after
    /// `Take`, [`StartPass::taken`] finishes the turn.
    pub fn decide(&mut self, facts: WaitingFacts) -> (step: StartStep)
        requires
            old(self).wf(),
            !old(self).taking(),
            old(self).turns().len() < old(self).arenas().len(),
        ensures
            final(self).wf(),
            final(self).arenas() == old(self).arenas(),
            final(self).active() == old(self).active(),
            step == spec_start_step(old(self).blocked(old(self).arenas()[old(self).turns().len() as int]), facts),
            step == StartStep::Wait ==> final(self).turns() == old(self).turns().push(Turn::Waited),
            step is Fail ==> final(self).turns() == old(self).turns().push(Turn::Failed),
            step == StartStep::Complete ==> final(self).turns() == old(self).turns().push(Turn::Completed),
            step == StartStep::Take ==> final(self).turns() == old(self).turns() && final(self).taking(),
            step != StartStep::Take ==> !final(self).taking(),
    {
        let arena = self.arenas[self.next];
        let blocked = holds(&self.blocked, arena);
        let step = if blocked {
            StartStep::Wait
        } else if !facts.arena_exists {
            StartStep::Fail(RollFailure::MissingArena)
        } else if facts.composition_empty {
            StartStep::Complete
        } else if !facts.queue_exists {
            StartStep::Fail(RollFailure::MissingArena)
        } else if facts.failure.is_some() && facts.ready == 0 {
            match facts.failure {
                Some(reason) => StartStep::Fail(reason),
                None => StartStep::Wait,
            }
        } else if !facts.prepared || facts.ready == 0 {
            StartStep::Wait
        } else {
            StartStep::Take
        };
        let ghost before = *self;
        match step {
            StartStep::Wait => {
                self.record(Turn::Waited);
                assert(self.turns@.drop_last() =~= before.turns@);
                proof {
                    lemma_free_at_play_extend(before, *self, Turn::Waited);
                }
                let ghost recorded = *self;
                if !blocked {
                    self.blocked.push(arena);
                }
                proof {
                    assert forall|a: u64| self.blocked@.contains(a) <==> self.blocked(a) by {
                        if a == arena {
                            let i = before.next as int;
                            assert(self.turns@[i] == Turn::Waited);
                            if !blocked {
                                lemma_push_contains(recorded.blocked@, arena, a);
                            } else {
                                assert(before.blocked@.contains(arena));
                            }
                        } else {
                            lemma_blocked_extend(before, recorded, a, arena);
                            if !blocked {
                                lemma_push_contains(recorded.blocked@, arena, a);
                            }
                            assert(self.blocked(a) <==> recorded.blocked(a));
                        }
                    }
                }
            },
            StartStep::Fail(_) => {
                self.record(Turn::Failed);
                assert(self.turns@.drop_last() =~= before.turns@);
                proof {
                    lemma_free_at_play_extend(before, *self, Turn::Failed);
                }
                proof {
                    assert forall|a: u64| self.blocked@.contains(a) <==> self.blocked(a) by {
                        lemma_blocked_extend(before, *self, a, arena);
                    }
                }
            },
            StartStep::Complete => {
                self.record(Turn::Completed);
                assert(self.turns@.drop_last() =~= before.turns@);
                proof {
                    lemma_free_at_play_extend(before, *self, Turn::Completed);
                }
                proof {
                    assert forall|a: u64| self.blocked@.contains(a) <==> self.blocked(a) by {
                        lemma_blocked_extend(before, *self, a, arena);
                    }
                }
            },
            StartStep::Take => {
                assert(before.blocked@.contains(arena) <==> before.blocked(arena));
                self.taking = true;
                proof {
                    assert forall|a: u64| self.blocked@.contains(a) <==> self.blocked(a) by {
                        assert(before.blocked@.contains(a) <==> before.blocked(a));
                        assert(self.blocked(a) == before.blocked(a));
                    }
                    assert(self.free_at_play() == before.free_at_play());
                }
            },
        }
        step
    }

    /// Ends the turn of a roll whose throw was taken: `None` when its
    /// playback starts (its arena then waits for it), or why it fails.
    pub fn taken(&mut self, facts: TakenFacts) -> (failure: Option<RollFailure>)
        requires
            old(self).wf(),
            old(self).taking(),
        ensures
            final(self).wf(),
            !final(self).taking(),
            final(self).arenas() == old(self).arenas(),
            final(self).active() == old(self).active(),
            failure == spec_taken_failure(facts),
            failure is None ==> final(self).turns() == old(self).turns().push(Turn::Played),
            failure is Some ==> final(self).turns() == old(self).turns().push(Turn::Failed),
    {
        let arena = self.arenas[self.next];
        let failure = match facts.corrections {
            Err(reason) => Some(reason),
            Ok(()) => if !facts.diceset_exists {
                Some(RollFailure::MissingDiceset)
            } else if !facts.handles_ready {
                Some(RollFailure::AssetUnavailable)
            } else {
                None
            },
        };
        let ghost before = *self;
        self.taking = false;
        let ghost settled = *self;
        assert forall|x: u64| settled.blocked@.contains(x) <==> settled.blocked(x) by {
            assert(before.blocked@.contains(x) <==> before.blocked(x));
            assert(settled.blocked(x) <==> before.blocked(x));
        }
        if failure.is_some() {
            self.record(Turn::Failed);
            assert(self.turns@.drop_last() =~= settled.turns@);
            proof {
                lemma_free_at_play_extend(settled, *self, Turn::Failed);
            }
            proof {
                assert forall|a: u64| self.blocked@.contains(a) <==> self.blocked(a) by {
                    lemma_blocked_extend(settled, *self, a, arena);
                }
            }
        } else {
            self.record(Turn::Played);
            assert(self.turns@.drop_last() =~= settled.turns@);
            proof {
                lemma_free_at_play_extend(settled, *self, Turn::Played);
            }
            let ghost recorded = *self;
            self.blocked.push(arena);
            proof {
                assert forall|a: u64| self.blocked@.contains(a) <==> self.blocked(a) by {
                    lemma_push_contains(recorded.blocked@, arena, a);
                    if a == arena {
                        assert(self.turns@[before.next as int] == Turn::Played);
                    } else {
                        lemma_blocked_extend(settled, recorded, a, arena);
                        assert(self.blocked(a) <==> recorded.blocked(a));
                    }
                }
            }
        }
        failure
    }

    /// Records how the current turn ended and moves to the next roll.
    fn record(&mut self, turn: Turn)
        requires
            old(self).next == old(self).turns@.len(),
            old(self).next < old(self).arenas@.len(),
            old(self).waited@ == waited_indices(old(self).turns@),
        ensures
            final(self).turns@ == old(self).turns@.push(turn),
            final(self).next == old(self).next + 1,
            final(self).arenas == old(self).arenas,
            final(self).active == old(self).active,
            final(self).blocked == old(self).blocked,
            final(self).taking == old(self).taking,
            final(self).waited@ == waited_indices(final(self).turns@),
    {
        let ghost turns = self.turns@;
        let count = self.arenas.len();
        assert(self.next < count);
        if turn == Turn::Waited {
            self.waited.push(self.next);
        }
        self.turns = Ghost(turns.push(turn));
        assert(self.turns@.drop_last() =~= turns);
        self.next = self.next + 1;
    }

    /// Every started turn found its arena free.
    proof fn lemma_free_when_played(self, j: int)
        requires
            self.wf(),
            0 <= j < self.turns().len(),
            self.turns()[j] == Turn::Played,
        ensures
            !self.active().contains(self.arenas()[j]),
            forall|i: int|
                0 <= i < j && self.arenas()[i] == self.arenas()[j] ==> self.turns()[i] != Turn::Waited
                    && self.turns()[i] != Turn::Played,
    {
    }

    /// Ends the pass: the positions of the rolls that stay queued, in their
    /// queue order.
    pub fn finish(self) -> (waiting: Vec<usize>)
        requires
            self.wf(),
        ensures
            waiting@ == waited_indices(self.turns()),
    {
        self.waited
    }
}

/// Recording a turn for `arena` changes whether another arena is blocked
/// only through that turn.
proof fn lemma_blocked_extend(before: StartPass, after: StartPass, a: u64, arena: u64)
    requires
        after.turns@.len() == before.turns@.len() + 1,
        after.turns@.drop_last() == before.turns@,
        after.arenas@ == before.arenas@,
        after.active@ == before.active@,
        after.blocked@ == before.blocked@,
        before.turns@.len() < before.arenas@.len(),
        before.arenas@[before.turns@.len() as int] == arena,
        (forall|x: u64| before.blocked@.contains(x) <==> before.blocked(x)),
        a != arena || (after.turns@.last() != Turn::Waited && after.turns@.last() != Turn::Played),
    ensures
        after.blocked@.contains(a) <==> after.blocked(a),
{
    let n = before.turns@.len() as int;
    assert(before.blocked@.contains(a) <==> before.blocked(a));
    assert(after.active() == before.active());
    assert forall|i: int| 0 <= i < n implies after.turns@[i] == before.turns@[i] by {
        assert(after.turns@.drop_last()[i] == after.turns@[i]);
    }
    if after.blocked(a) && !after.active().contains(a) {
        let i = choose|i: int|
            0 <= i < after.turns().len() && after.arenas()[i] == a && (after.turns()[i] == Turn::Waited
                || after.turns()[i] == Turn::Played);
        assert(i < n);
        assert(before.arenas()[i] == a && (before.turns()[i] == Turn::Waited || before.turns()[i] == Turn::Played));
        assert(before.blocked(a));
    }
    if before.blocked(a) && !before.active().contains(a) {
        let i = choose|i: int|
            0 <= i < before.turns().len() && before.arenas()[i] == a && (before.turns()[i] == Turn::Waited
                || before.turns()[i] == Turn::Played);
        assert(after.arenas()[i] == a && (after.turns()[i] == Turn::Waited || after.turns()[i] == Turn::Played));
        assert(after.blocked(a));
    }
}

/// Recording a turn keeps every started turn's arena free at its turn: a
/// new turn that did not start changes nothing, and a new turn that started
/// found its arena unblocked.
proof fn lemma_free_at_play_extend(before: StartPass, after: StartPass, turn: Turn)
    requires
        before.free_at_play(),
        after.turns@ == before.turns@.push(turn),
        after.arenas@ == before.arenas@,
        after.active@ == before.active@,
        before.turns@.len() < before.arenas@.len(),
        turn == Turn::Played ==> !before.blocked(before.arenas@[before.turns@.len() as int]),
    ensures
        after.free_at_play(),
{
    let n = before.turns@.len() as int;
    assert forall|j: int|
        0 <= j < after.turns@.len() && after.turns@[j] == Turn::Played implies {
            &&& !after.active@.contains(after.arenas@[j])
            &&& forall|i: int|
                0 <= i < j && after.arenas@[i] == after.arenas@[j] ==> after.turns@[i] != Turn::Waited
                    && after.turns@[i] != Turn::Played
        } by {
        if j < n {
            assert(before.turns@[j] == Turn::Played);
            assert forall|i: int| 0 <= i < j && after.arenas@[i] == after.arenas@[j] implies after.turns@[i]
                != Turn::Waited && after.turns@[i] != Turn::Played by {
                assert(after.turns@[i] == before.turns@[i]);
            }
        } else {
            assert forall|i: int| 0 <= i < j && after.arenas@[i] == after.arenas@[j] implies after.turns@[i]
                != Turn::Waited && after.turns@[i] != Turn::Played by {
                assert(after.turns@[i] == before.turns@[i]);
                if after.turns@[i] == Turn::Waited || after.turns@[i] == Turn::Played {
                    assert(before.blocked(before.arenas@[n]));
                }
            }
        }
    }
}

/// An element is in a sequence with one more element pushed when it is
/// that element or was in the sequence before.
proof fn lemma_push_contains(s: Seq<u64>, x: u64, a: u64)
    ensures
        s.push(x).contains(a) <==> (s.contains(a) || a == x),
{
    if s.push(x).contains(a) {
        let j = choose|j: int| 0 <= j < s.push(x).len() && s.push(x)[j] == a;
        if j < s.len() {
            assert(s[j] == a);
        }
    }
    if s.contains(a) {
        let j = choose|j: int| 0 <= j < s.len() && s[j] == a;
        assert(s.push(x)[j] == a);
    }
    if a == x {
        assert(s.push(x)[s.len() as int] == x);
    }
}

/// Rolls of one arena start in queue order: when a roll's playback starts
/// in a pass, every earlier roll of its arena in that pass has failed or
/// completed, and its arena was not busy with a playback when the pass began.
pub proof fn lemma_rolls_of_an_arena_start_in_order(pass: StartPass, i: int, j: int)
    requires
        pass.wf(),
        0 <= i < j < pass.turns().len(),
        pass.arenas()[i] == pass.arenas()[j],
        pass.turns()[j] == Turn::Played,
    ensures
        pass.turns()[i] == Turn::Failed || pass.turns()[i] == Turn::Completed,
        !pass.active().contains(pass.arenas()[j]),
{
    pass.lemma_free_when_played(j);
}

/// One playback per arena: a pass starts at most one playback in each
/// arena, and none in an arena that was busy when the pass began.
pub proof fn lemma_one_playback_per_arena(pass: StartPass, i: int, j: int)
    requires
        pass.wf(),
        0 <= i < j < pass.turns().len(),
        pass.arenas()[i] == pass.arenas()[j],
    ensures
        !(pass.turns()[i] == Turn::Played && pass.turns()[j] == Turn::Played),
        pass.turns()[j] == Turn::Played ==> !pass.active().contains(pass.arenas()[j]),
{
    if pass.turns()[j] == Turn::Played {
        lemma_rolls_of_an_arena_start_in_order(pass, i, j);
    }
}

/// A roll whose queue is empty and has not failed waits for its refill: it
/// is neither failed nor started, whatever its arena is doing.
pub proof fn lemma_empty_queue_waits(blocked: bool, facts: WaitingFacts)
    requires
        facts.arena_exists,
        !facts.composition_empty,
        facts.queue_exists,
        facts.failure is None,
        facts.ready == 0,
    ensures
        spec_start_step(blocked, facts) == StartStep::Wait,
{
}

/// The rolls that stay queued keep their order: the waiting positions
/// increase, each is a roll that waited, and every roll that waited is
/// among them.
pub proof fn lemma_waiting_rolls_keep_their_order(turns: Seq<Turn>)
    requires
        turns.len() <= usize::MAX,
    ensures
        forall|k: int| 0 <= k < waited_indices(turns).len() ==> waited_indices(turns)[k] < turns.len(),
        forall|a: int, b: int|
            0 <= a < b < waited_indices(turns).len() ==> waited_indices(turns)[a] < waited_indices(turns)[b],
        forall|k: int|
            0 <= k < waited_indices(turns).len() ==> turns[waited_indices(turns)[k] as int] == Turn::Waited,
        forall|i: int|
            0 <= i < turns.len() && turns[i] == Turn::Waited ==> waited_indices(turns).contains(i as usize),
    decreases turns.len(),
{
    if turns.len() > 0 {
        let n = turns.len() as int;
        let rest = turns.drop_last();
        let w = waited_indices(rest);
        let all = waited_indices(turns);
        lemma_waiting_rolls_keep_their_order(rest);
        assert forall|i: int| 0 <= i < n - 1 implies rest[i] == turns[i] by {}
        if turns.last() == Turn::Waited {
            assert(all == w.push((n - 1) as usize));
            assert forall|k: int| 0 <= k < w.len() implies all[k] == w[k] by {}
            assert(all[w.len() as int] == (n - 1) as usize);
            assert forall|i: int| 0 <= i < n && turns[i] == Turn::Waited implies all.contains(i as usize) by {
                if i < n - 1 {
                    let k = choose|k: int| 0 <= k < w.len() && w[k] == i as usize;
                    assert(all[k] == i as usize);
                } else {
                    assert(all[w.len() as int] == i as usize);
                }
            }
        } else {
            assert(all == w);
            assert forall|i: int| 0 <= i < n && turns[i] == Turn::Waited implies all.contains(i as usize) by {
                assert(i < n - 1);
                assert(rest[i] == Turn::Waited);
            }
        }
    }
}

/// A composition queue as the refill choice sees it.
#[derive(Clone, Copy, Debug, PartialEq, Eq, Structural)]
pub struct RefillCandidate {
    /// The queue has an arena snapshot to simulate from.
    pub has_template: bool,
    /// The queue cannot be filled.
    pub failed: bool,
    /// The queue is waiting out the delay after a throw that did not settle.
    pub cooling: bool,
    /// Recorded throws ready in the queue.
    pub ready: usize,
    /// The refill serial when this queue was last refilled.
    pub last_refill: u64,
    /// A waiting roll needs this queue.
    pub demanded: bool,
}

/// The queue can take another recording now.
pub open spec fn needs_refill(c: RefillCandidate) -> bool {
    c.has_template && !c.failed && !c.cooling && c.ready < PRECOMPUTE_QUEUE_DEPTH
}

/// `a` is refilled no later than `b`: a queue that a waiting roll needs
/// before a top-up, then the least recently refilled, then the emptier queue.
pub open spec fn refill_no_later(a: RefillCandidate, b: RefillCandidate) -> bool {
    ||| a.demanded && !b.demanded
    ||| a.demanded == b.demanded && a.last_refill < b.last_refill
    ||| a.demanded == b.demanded && a.last_refill == b.last_refill && a.ready <= b.ready
}

/// The queue to refill next: among those that need a refill, the first that
/// comes no later than every other; `None` when no queue needs one. A queue
/// that a waiting roll needs is always chosen before a top-up.
pub fn choose_refill(candidates: &[RefillCandidate]) -> (choice: Option<usize>)
    ensures
        choice is None <==> forall|j: int| 0 <= j < candidates@.len() ==> !needs_refill(#[trigger] candidates@[j]),
        choice matches Some(i) ==> {
            &&& i < candidates@.len()
            &&& needs_refill(candidates@[i as int])
            &&& forall|j: int|
                0 <= j < candidates@.len() && needs_refill(#[trigger] candidates@[j]) ==> refill_no_later(
                    candidates@[i as int],
                    candidates@[j],
                )
            &&& forall|j: int|
                0 <= j < i && needs_refill(#[trigger] candidates@[j]) ==> !refill_no_later(
                    candidates@[j],
                    candidates@[i as int],
                )
        },
        choice matches Some(i) ==> ((exists|j: int|
            0 <= j < candidates@.len() && needs_refill(#[trigger] candidates@[j]) && candidates@[j].demanded)
            ==> candidates@[i as int].demanded),
{
    let mut best: Option<usize> = None;
    let mut j: usize = 0;
    while j < candidates.len()
        invariant
            j <= candidates@.len(),
            best is None <==> forall|k: int| 0 <= k < j ==> !needs_refill(#[trigger] candidates@[k]),
            best matches Some(i) ==> {
                &&& i < j
                &&& needs_refill(candidates@[i as int])
                &&& forall|k: int|
                    0 <= k < j && needs_refill(#[trigger] candidates@[k]) ==> refill_no_later(
                        candidates@[i as int],
                        candidates@[k],
                    )
                &&& forall|k: int|
                    0 <= k < i && needs_refill(#[trigger] candidates@[k]) ==> !refill_no_later(
                        candidates@[k],
                        candidates@[i as int],
                    )
            },
        decreases candidates@.len() - j,
    {
        let c = candidates[j];
        if c.has_template && !c.failed && !c.cooling && c.ready < PRECOMPUTE_QUEUE_DEPTH {
            match best {
                None => {
                    best = Some(j);
                },
                Some(i) => {
                    let b = candidates[i];
                    let earlier = (c.demanded && !b.demanded) || (c.demanded == b.demanded && c.last_refill
                        < b.last_refill) || (c.demanded == b.demanded && c.last_refill == b.last_refill && c.ready
                        < b.ready);
                    if earlier {
                        best = Some(j);
                    }
                },
            }
        }
        j = j + 1;
    }
    best
}

/// The wait, in milliseconds, before the first retry of a throw that did not settle.
pub const FIRST_RETRY_DELAY_MS: u64 = 250;

/// The longest wait, in milliseconds, before a throw that did not settle is retried.
pub const LONGEST_RETRY_DELAY_MS: u64 = 8000;

/// The wait before a queue is refilled again after `unsettled` throws in a
/// row did not settle: none before the first, 250 ms after it, and twice
/// the wait after each further one, up to 8 seconds.
pub open spec fn spec_retry_delay(unsettled: nat) -> nat
    decreases unsettled,
{
    if unsettled == 0 {
        0
    } else if unsettled == 1 {
        FIRST_RETRY_DELAY_MS as nat
    } else {
        let doubled = 2 * spec_retry_delay((unsettled - 1) as nat);
        if doubled > LONGEST_RETRY_DELAY_MS {
            LONGEST_RETRY_DELAY_MS as nat
        } else {
            doubled
        }
    }
}

/// Once the wait reaches its longest it stays there.
proof fn lemma_retry_delay_stays_longest(n: nat, m: nat)
    requires
        n >= 1,
        n <= m,
        spec_retry_delay(n) == LONGEST_RETRY_DELAY_MS,
    ensures
        spec_retry_delay(m) == LONGEST_RETRY_DELAY_MS,
    decreases m - n,
{
    if m > n {
        lemma_retry_delay_stays_longest(n, (m - 1) as nat);
    }
}

/// The wait before the next refill of a queue after `unsettled` throws in a
/// row did not settle, as [`spec_retry_delay`] gives it.
pub fn retry_delay_ms(unsettled: u32) -> (delay: u64)
    ensures
        delay == spec_retry_delay(unsettled as nat),
        delay <= LONGEST_RETRY_DELAY_MS,
{
    if unsettled == 0 {
        return 0;
    }
    let mut delay: u64 = FIRST_RETRY_DELAY_MS;
    let mut n: u32 = 1;
    while n < unsettled && delay < LONGEST_RETRY_DELAY_MS
        invariant
            1 <= n <= unsettled,
            delay == spec_retry_delay(n as nat),
            delay <= LONGEST_RETRY_DELAY_MS,
        decreases unsettled - n,
    {
        let doubled = 2 * delay;
        delay = if doubled > LONGEST_RETRY_DELAY_MS {
            LONGEST_RETRY_DELAY_MS
        } else {
            doubled
        };
        n = n + 1;
    }
    proof {
        if n < unsettled {
            lemma_retry_delay_stays_longest(n as nat, unsettled as nat);
        }
    }
    delay
}

/// What a finished background job does to its queue.
#[derive(Clone, Debug, PartialEq, Eq, Structural)]
pub enum JobEffect {
    /// The queue is gone or was reset since the job began: drop the result.
    Discard,
    /// Keep the prepared geometry, and the recording when the queue has room;
    /// the count of throws in a row that did not settle starts again at zero.
    Store { keep_recording: bool },
    /// The throw did not settle: the queue now counts `unsettled` such throws
    /// in a row and is refilled again after `delay_ms` milliseconds.
    Retry { unsettled: u32, delay_ms: u64 },
    /// Mark the queue as failing for this reason.
    Fail(RollFailure),
}

/// What a job's result does: `current` tells whether the queue still exists
/// with the snapshot the job started from, `ready` how many throws it holds,
/// and `unsettled` how many throws in a row before this one did not settle.
pub fn job_effect(current: bool, result: Result<(), RollFailure>, ready: usize, unsettled: u32) -> (effect:
    JobEffect)
    ensures
        !current ==> effect == JobEffect::Discard,
        current ==> match result {
            Ok(_) => effect == (JobEffect::Store { keep_recording: ready < PRECOMPUTE_QUEUE_DEPTH }),
            Err(e) => if e == RollFailure::SimulationFailed {
                let count = if unsettled < u32::MAX {
                    (unsettled + 1) as u32
                } else {
                    u32::MAX
                };
                effect == (JobEffect::Retry {
                    unsettled: count,
                    delay_ms: spec_retry_delay(count as nat) as u64,
                })
            } else {
                effect == JobEffect::Fail(e)
            },
        },
{
    if !current {
        return JobEffect::Discard;
    }
    match result {
        Ok(()) => JobEffect::Store { keep_recording: ready < PRECOMPUTE_QUEUE_DEPTH },
        Err(RollFailure::SimulationFailed) => {
            let count = unsettled.saturating_add(1);
            JobEffect::Retry { unsettled: count, delay_ms: retry_delay_ms(count) }
        },
        Err(e) => JobEffect::Fail(e),
    }
}

/// Why a playback in progress stops, checked in this order: its arena is
/// gone, its queue was reset by a change to the arena or its meshes, or
/// some of its dice were removed; `None` while it can go on.
pub fn playback_failure(arena_exists: bool, same_snapshot: bool, dice_present: bool) -> (failure: Option<
    RollFailure,
>)
    ensures
        failure == if !arena_exists {
            Some(RollFailure::MissingArena)
        } else if !same_snapshot {
            Some(RollFailure::ArenaChanged)
        } else if !dice_present {
            Some(RollFailure::DiceRemoved)
        } else {
            None::<RollFailure>
        },
{
    if !arena_exists {
        Some(RollFailure::MissingArena)
    } else if !same_snapshot {
        Some(RollFailure::ArenaChanged)
    } else if !dice_present {
        Some(RollFailure::DiceRemoved)
    } else {
        None
    }
}

} // verus!
