//! Approximating a gradient by a piecewise linear one: where to sample it.
//!
//! The gradient itself, and every judgement on how far two colors are
//! apart, is the caller's. What is decided here is the order of the work:
//! which interval to look at next, how deep to go, which positions to keep.

use vstd::prelude::*;
use vstd::seq_lib::{to_multiset_build, to_multiset_insert};
use crate::scalar::Scalar;

verus! {

/// How many times an interval is halved at most.
pub const MAX_DEPTH: u32 = 7;

/// The number of evenly spaced positions the work starts from.
pub const SEED_COUNT: usize = 17;

/// `p` never decreases, by the keys of its numbers.
pub open spec fn ascending(p: Seq<Scalar>) -> bool {
    forall|i: int, j: int| 0 <= i <= j < p.len() ==> p[i].key() <= p[j].key()
}

/// Sorts positions by their keys: numbers in their order, the two zeros as
/// one.
pub fn sort_positions(v: &Vec<Scalar>) -> (r: Vec<Scalar>)
    ensures
        ascending(r@),
        r@.to_multiset() == v@.to_multiset(),
        r@.len() == v@.len(),
{
    let mut r: Vec<Scalar> = Vec::new();
    let mut i: usize = 0;
    assert(v@.take(0) =~= Seq::<Scalar>::empty());
    while i < v.len()
        invariant
            i <= v@.len(),
            r@.len() == i,
            ascending(r@),
            r@.to_multiset() == v@.take(i as int).to_multiset(),
        decreases v.len() - i,
    {
        let x: Scalar = v[i];
        let mut j: usize = 0;
        while j < r.len() && r[j].order_key() <= x.order_key()
            invariant
                j <= r@.len(),
                forall|k: int| 0 <= k < j ==> (#[trigger] r@[k]).key() <= x.key(),
            decreases r.len() - j,
        {
            j = j + 1;
        }
        let ghost before = r@;
        r.insert(j, x);
        proof {
            broadcast use to_multiset_insert, to_multiset_build;

            assert(r@ == before.insert(j as int, x));
            assert(v@.take(i + 1) =~= v@.take(i as int).push(x));
            assert forall|a: int, b: int| 0 <= a <= b < r@.len() implies r@[a].key()
                <= r@[b].key() by {
                if a < j && b < j {
                    assert(r@[a] == before[a] && r@[b] == before[b]);
                } else if a < j && b == j {
                    assert(r@[a] == before[a]);
                } else if a < j && b > j {
                    assert(r@[a] == before[a] && r@[b] == before[b - 1]);
                } else if a == j && b > j {
                    assert(r@[b] == before[b - 1]);
                    assert(before[j as int].key() <= before[b - 1].key());
                } else if a > j {
                    assert(r@[a] == before[a - 1] && r@[b] == before[b - 1]);
                }
            }
        }
        i = i + 1;
    }
    assert(v@.take(i as int) =~= v@);
    r
}

/// A walk along positions that keeps some and drops the others, one
/// judgement at a time.
pub struct Thinning {
    /// The positions walked along.
    pub source: Seq<Scalar>,
    /// The indices of those kept so far, increasing.
    pub picked: Seq<int>,
    /// The index of the position to be judged next.
    pub at: int,
    /// Whether the last position is kept without being judged.
    pub keep_last: bool,
}

/// One position to be judged, with its neighbors: the last position kept
/// before it, and the position that follows it, if there is one.
#[derive(Clone, Copy, Debug, PartialEq, Eq, Structural)]
pub struct Candidate {
    pub prev: Scalar,
    pub curr: Scalar,
    pub next: Option<Scalar>,
}

impl Thinning {
    pub open spec fn wf(self) -> bool {
        &&& self.source.len() == 0 ==> self.picked.len() == 0 && self.at == 0
        &&& self.source.len() > 0 ==> {
            &&& self.picked.len() >= 1
            &&& self.picked[0] == 0
            &&& 1 <= self.at <= self.source.len()
            &&& self.at <= self.end() || self.at == 1
            &&& forall|k: int| 0 <= k < self.picked.len() ==> 0 <= #[trigger] self.picked[k] < self.at
            &&& forall|j: int, k: int|
                0 <= j < k < self.picked.len() ==> self.picked[j] < self.picked[k]
        }
    }

    /// Where the judging ends: before the last position where that one is
    /// kept anyway.
    pub open spec fn end(self) -> int {
        if self.keep_last && self.source.len() > 0 {
            self.source.len() - 1
        } else {
            self.source.len() as int
        }
    }

    pub open spec fn candidate(self) -> Option<Candidate> {
        if self.at < self.end() {
            Some(
                Candidate {
                    prev: self.source[self.picked[self.picked.len() - 1]],
                    curr: self.source[self.at],
                    next: if self.at + 1 < self.source.len() {
                        Some(self.source[self.at + 1])
                    } else {
                        None
                    },
                },
            )
        } else {
            None
        }
    }

    /// The state after the judgement `keep` on the candidate.
    pub open spec fn decided(self, keep: bool) -> Thinning {
        if self.candidate() is None {
            self
        } else if keep {
            Thinning { picked: self.picked.push(self.at), at: self.at + 1, ..self }
        } else {
            Thinning { at: self.at + 1, ..self }
        }
    }

    /// The positions kept: those picked, and the last one where it is kept
    /// anyway and is not the first.
    pub open spec fn result(self) -> Seq<Scalar> {
        let kept = Seq::new(self.picked.len(), |k: int| self.source[self.picked[k]]);
        if self.keep_last && self.source.len() >= 2 {
            kept.push(self.source[self.source.len() - 1])
        } else {
            kept
        }
    }
}

/// What is kept of positions that never decrease never decreases, and it
/// begins where they begin.
pub proof fn lemma_thinning_keeps_order(t: Thinning)
    requires
        t.wf(),
        ascending(t.source),
    ensures
        ascending(t.result()),
        t.source.len() > 0 ==> t.result().len() > 0 && t.result()[0] == t.source[0],
        t.keep_last && t.source.len() > 0 ==> t.result()[t.result().len() - 1]
            == t.source[t.source.len() - 1],
        t.result().len() <= t.source.len(),
{
    let r = t.result();
    let kept = Seq::new(t.picked.len(), |k: int| t.source[t.picked[k]]);
    lemma_increasing_is_short(t.picked, t.at);
    assert forall|i: int, j: int| 0 <= i <= j < r.len() implies r[i].key() <= r[j].key() by {
        if j < kept.len() {
            if i < j {
                assert(t.picked[i] < t.picked[j]);
            }
        } else {
            if i < kept.len() {
                assert(t.picked[i] < t.at);
            }
        }
    }
}

/// Increasing indices below `bound` are at most `bound` many.
pub proof fn lemma_increasing_is_short(picked: Seq<int>, bound: int)
    requires
        forall|k: int| 0 <= k < picked.len() ==> 0 <= #[trigger] picked[k] < bound,
        forall|j: int, k: int| 0 <= j < k < picked.len() ==> picked[j] < picked[k],
    ensures
        picked.len() <= if bound < 0 {
            0
        } else {
            bound
        },
    decreases picked.len(),
{
    if picked.len() > 0 {
        let last = picked[picked.len() - 1];
        let rest = picked.drop_last();
        assert forall|k: int| 0 <= k < rest.len() implies 0 <= #[trigger] rest[k] < last by {
            assert(rest[k] == picked[k]);
        }
        assert forall|j: int, k: int| 0 <= j < k < rest.len() implies rest[j] < rest[k] by {
            assert(rest[j] == picked[j] && rest[k] == picked[k]);
        }
        lemma_increasing_is_short(rest, last);
    }
}

/// Thins out positions by the caller's judgement.
#[derive(Debug)]
pub struct Thinner {
    source: Vec<Scalar>,
    picked: Vec<usize>,
    at: usize,
    keep_last: bool,
}

impl View for Thinner {
    type V = Thinning;

    closed spec fn view(&self) -> Thinning {
        Thinning {
            source: self.source@,
            picked: Seq::new(self.picked@.len(), |k: int| self.picked@[k] as int),
            at: self.at as int,
            keep_last: self.keep_last,
        }
    }
}

impl Thinner {
    #[verifier::type_invariant]
    spec fn inv(self) -> bool {
        self@.wf()
    }

    /// Begins a walk along `source`. The first position is kept; with
    /// `keep_last` the last one is kept too and not judged.
    pub fn new(source: Vec<Scalar>, keep_last: bool) -> (t: Self)
        ensures
            t@.wf(),
            t@ == (Thinning {
                source: source@,
                picked: if source@.len() > 0 {
                    seq![0int]
                } else {
                    Seq::empty()
                },
                at: if source@.len() > 0 {
                    1
                } else {
                    0
                },
                keep_last,
            }),
    {
        let mut picked: Vec<usize> = Vec::new();
        let mut at: usize = 0;
        if source.len() > 0 {
            picked.push(0);
            at = 1;
        }
        let t = Thinner { source, picked, at, keep_last };
        assert(t@.picked =~= if source@.len() > 0 {
            seq![0int]
        } else {
            Seq::empty()
        });
        t
    }

    /// The position to be judged next, if any is left.
    pub fn candidate(&self) -> (c: Option<Candidate>)
        ensures
            self@.wf(),
            c == self@.candidate(),
    {
        proof {
            use_type_invariant(self);
        }
        let n: usize = self.source.len();
        let end: usize = if self.keep_last && n > 0 {
            n - 1
        } else {
            n
        };
        if self.at < end {
            let last: usize = self.picked[self.picked.len() - 1];
            assert(self@.picked[self@.picked.len() - 1] == last);
            Some(
                Candidate {
                    prev: self.source[last],
                    curr: self.source[self.at],
                    next: if self.at + 1 < n {
                        Some(self.source[self.at + 1])
                    } else {
                        None
                    },
                },
            )
        } else {
            None
        }
    }

    /// Takes the judgement on the candidate: it is kept or dropped, and the
    /// walk moves on. Where no candidate is left, nothing changes.
    pub fn decide(&mut self, keep: bool)
        ensures
            old(self)@.wf(),
            final(self)@.wf(),
            final(self)@ == old(self)@.decided(keep),
    {
        proof {
            use_type_invariant(&*self);
        }
        let n: usize = self.source.len();
        let end: usize = if self.keep_last && n > 0 {
            n - 1
        } else {
            n
        };
        if self.at < end {
            let ghost before = self@;
            let mut taken: Thinner = Thinner::new(Vec::new(), false);
            std::mem::swap(self, &mut taken);
            let Thinner { source, picked, at, keep_last } = taken;
            let mut picked: Vec<usize> = picked;
            if keep {
                picked.push(at);
            }
            let ghost after = Seq::new(picked@.len(), |k: int| picked@[k] as int);
            proof {
                assert(after =~= if keep {
                    before.picked.push(before.at)
                } else {
                    before.picked
                });
                assert forall|k: int| 0 <= k < after.len() implies 0 <= #[trigger] after[k] < at
                    + 1 by {
                    if k < before.picked.len() {
                        assert(after[k] == before.picked[k]);
                    }
                }
                assert forall|j: int, k: int| 0 <= j < k < after.len() implies after[j]
                    < after[k] by {
                    assert(after[j] == before.picked[j]);
                    if k < before.picked.len() {
                        assert(after[k] == before.picked[k]);
                    }
                }
            }
            let moved = Thinner { source, picked, at: at + 1, keep_last };
            assert(moved@ == before.decided(keep));
            *self = moved;
        }
    }

    /// Ends the walk and gives the positions kept. Candidates that were not
    /// judged are dropped.
    pub fn finish(self) -> (r: Vec<Scalar>)
        ensures
            self@.wf(),
            r@ == self@.result(),
    {
        proof {
            use_type_invariant(&self);
        }
        let mut r: Vec<Scalar> = Vec::new();
        let mut k: usize = 0;
        while k < self.picked.len()
            invariant
                self@.wf(),
                k <= self.picked@.len(),
                r@.len() == k,
                forall|j: int| 0 <= j < k ==> r@[j] == self@.source[self@.picked[j]],
            decreases self.picked.len() - k,
        {
            let i: usize = self.picked[k];
            assert(self@.picked[k as int] == i);
            r.push(self.source[i]);
            k = k + 1;
        }
        let ghost kept = Seq::new(self@.picked.len(), |j: int| self@.source[self@.picked[j]]);
        assert(r@ =~= kept);
        if self.keep_last && self.source.len() >= 2 {
            r.push(self.source[self.source.len() - 1]);
        }
        r
    }
}

/// An interval of the domain, and how many halvings led to it.
#[derive(Clone, Copy, Debug, PartialEq, Eq, Structural)]
pub struct Interval {
    pub lo: Scalar,
    pub hi: Scalar,
    pub depth: u32,
}

/// One piece of the work that is still to do.
#[derive(Clone, Copy, Debug, PartialEq, Eq, Structural)]
pub enum Task {
    /// See whether the gradient is straight enough over the interval.
    Examine(Interval),
    /// Put the position down as a stop.
    Emit(Scalar),
}

/// The state of a subdivision: the work to do, the next task last, and the
/// positions put down so far.
pub struct Subdivision {
    pub todo: Seq<Task>,
    pub done: Seq<Scalar>,
}

/// An upper bound on the tasks that an interval at depth `d` stands for,
/// itself included.
pub open spec fn examine_weight(d: int) -> int
    decreases MAX_DEPTH - d,
{
    if d >= MAX_DEPTH {
        1
    } else {
        2 * examine_weight(d + 1) + 2
    }
}

pub open spec fn weight(task: Task) -> int {
    match task {
        Task::Examine(iv) => examine_weight(iv.depth as int),
        Task::Emit(_) => 1,
    }
}

/// An upper bound on what is left to do.
pub open spec fn work(todo: Seq<Task>) -> int
    decreases todo.len(),
{
    if todo.len() == 0 {
        0
    } else {
        work(todo.drop_last()) + weight(todo.last())
    }
}

/// The work that seed positions make, from seed `k` on: each seed is put
/// down, and the interval to the next seed examined before that one is.
pub open spec fn plan(seeds: Seq<Scalar>, k: int) -> Seq<Task>
    decreases seeds.len() - k,
{
    if k < 0 || k >= seeds.len() {
        Seq::empty()
    } else if k + 1 < seeds.len() {
        plan(seeds, k + 1).push(
            Task::Examine(Interval { lo: seeds[k], hi: seeds[k + 1], depth: 0 }),
        ).push(Task::Emit(seeds[k]))
    } else {
        plan(seeds, k + 1).push(Task::Emit(seeds[k]))
    }
}

impl Subdivision {
    /// The state at the next interval that is to be examined, or at the end
    /// of the work: positions due are put down on the way, and intervals at
    /// the greatest depth are passed over.
    pub open spec fn settled(self) -> (Subdivision, Option<Interval>)
        decreases self.todo.len(),
    {
        if self.todo.len() == 0 {
            (self, None)
        } else {
            let rest = self.todo.drop_last();
            match self.todo.last() {
                Task::Emit(t) => (Subdivision { todo: rest, done: self.done.push(t) }).settled(),
                Task::Examine(iv) => if iv.depth < MAX_DEPTH {
                    (Subdivision { todo: rest, done: self.done }, Some(iv))
                } else {
                    (Subdivision { todo: rest, done: self.done }).settled()
                },
            }
        }
    }

    /// The state once `iv` is halved at `mid`: the lower half is examined
    /// first, then `mid` is put down, then the upper half is examined. An
    /// interval at the greatest depth is not halved.
    pub open spec fn halved(self, iv: Interval, mid: Scalar) -> Subdivision {
        if iv.depth >= MAX_DEPTH {
            self
        } else {
            Subdivision {
                todo: self.todo.push(
                    Task::Examine(
                        Interval { lo: mid, hi: iv.hi, depth: (iv.depth + 1) as u32 },
                    ),
                ).push(Task::Emit(mid)).push(
                    Task::Examine(
                        Interval { lo: iv.lo, hi: mid, depth: (iv.depth + 1) as u32 },
                    ),
                ),
                done: self.done,
            }
        }
    }
}

/// Where the part of the domain that a task stands for begins.
pub open spec fn lower(task: Task) -> Scalar {
    match task {
        Task::Examine(iv) => iv.lo,
        Task::Emit(t) => t,
    }
}

/// Where the part of the domain that a task stands for ends.
pub open spec fn upper(task: Task) -> Scalar {
    match task {
        Task::Examine(iv) => iv.hi,
        Task::Emit(t) => t,
    }
}

impl Subdivision {
    /// The work lies in the order of the domain: what is put down never
    /// decreases, each task begins no later than it ends and no earlier than
    /// the task due before it ends, and no task begins before a position
    /// that is put down.
    pub open spec fn in_order(self) -> bool {
        &&& ascending(self.done)
        &&& forall|i: int|
            0 <= i < self.todo.len() ==> lower(#[trigger] self.todo[i]).key() <= upper(
                self.todo[i],
            ).key()
        &&& forall|i: int, j: int|
            0 <= i < j < self.todo.len() ==> upper(#[trigger] self.todo[j]).key() <= lower(
                #[trigger] self.todo[i],
            ).key()
        &&& forall|i: int, k: int|
            0 <= i < self.todo.len() && 0 <= k < self.done.len() ==> (#[trigger] self.done[k]).key()
                <= lower(#[trigger] self.todo[i]).key()
    }

    /// `iv` fits between what is put down and what is still to do.
    pub open spec fn admits(self, iv: Interval) -> bool {
        &&& iv.lo.key() <= iv.hi.key()
        &&& forall|k: int| 0 <= k < self.done.len() ==> (#[trigger] self.done[k]).key() <= iv.lo.key()
        &&& forall|i: int|
            0 <= i < self.todo.len() ==> iv.hi.key() <= lower(#[trigger] self.todo[i]).key()
    }
}

/// The work that ascending seeds make lies in order.
pub proof fn lemma_plan_in_order(seeds: Seq<Scalar>, k: int)
    requires
        ascending(seeds),
        0 <= k <= seeds.len(),
    ensures
        (Subdivision { todo: plan(seeds, k), done: Seq::empty() }).in_order(),
        forall|i: int|
            0 <= i < plan(seeds, k).len() && k < seeds.len() ==> seeds[k].key() <= lower(
                #[trigger] plan(seeds, k)[i],
            ).key(),
    decreases seeds.len() - k,
{
    if k < seeds.len() {
        lemma_plan_in_order(seeds, k + 1);
        let rest = plan(seeds, k + 1);
        let now = plan(seeds, k);
        if k + 1 < seeds.len() {
            let e = Task::Examine(Interval { lo: seeds[k], hi: seeds[k + 1], depth: 0 });
            assert(now == rest.push(e).push(Task::Emit(seeds[k])));
            let m = rest.len() as int;
            assert(now[m] == e && now[m + 1] == Task::Emit(seeds[k]));
            assert(seeds[k].key() <= seeds[k + 1].key());
            assert forall|i: int| 0 <= i < m implies now[i] == rest[i] by {}
            let sub = Subdivision { todo: rest, done: Seq::empty() };
            assert(sub.in_order());
            assert forall|i: int| 0 <= i < m implies lower(#[trigger] rest[i]).key() <= upper(
                rest[i],
            ).key() by {
                assert(lower(sub.todo[i]).key() <= upper(sub.todo[i]).key());
            }
            assert forall|i: int, j: int| 0 <= i < j < m implies upper(#[trigger] rest[j]).key()
                <= lower(#[trigger] rest[i]).key() by {
                assert(upper(sub.todo[j]).key() <= lower(sub.todo[i]).key());
            }
            assert forall|i: int| 0 <= i < now.len() implies seeds[k].key() <= lower(
                #[trigger] now[i],
            ).key() by {
                if i < rest.len() {
                    assert(now[i] == rest[i]);
                    assert(seeds[k + 1].key() <= lower(rest[i]).key());
                }
            }
            assert forall|i: int, j: int| 0 <= i < j < now.len() implies upper(
                #[trigger] now[j],
            ).key() <= lower(#[trigger] now[i]).key() by {
                if i < rest.len() {
                    assert(now[i] == rest[i]);
                    assert(seeds[k + 1].key() <= lower(rest[i]).key());
                    if j < rest.len() {
                        assert(now[j] == rest[j]);
                    }
                }
            }
            assert forall|i: int| 0 <= i < now.len() implies lower(#[trigger] now[i]).key()
                <= upper(now[i]).key() by {
                if i < rest.len() {
                    assert(now[i] == rest[i]);
                }
            }
        } else {
            assert(rest =~= Seq::<Task>::empty());
            assert(now == rest.push(Task::Emit(seeds[k])));
        }
    }
}

/// Settling keeps the order, and the interval it hands out fits between
/// what is put down and what is still to do.
pub proof fn lemma_settling_keeps_order(s: Subdivision)
    requires
        s.in_order(),
    ensures
        s.settled().0.in_order(),
        s.settled().1 matches Some(iv) ==> s.settled().0.admits(iv),
    decreases s.todo.len(),
{
    if s.todo.len() > 0 {
        let rest = s.todo.drop_last();
        let n = s.todo.len() as int;
        assert forall|i: int| 0 <= i < rest.len() implies rest[i] == s.todo[i] by {}
        match s.todo.last() {
            Task::Emit(t) => {
                let next = Subdivision { todo: rest, done: s.done.push(t) };
                assert(lower(s.todo[n - 1]) == t && upper(s.todo[n - 1]) == t);
                assert forall|a: int, b: int| 0 <= a <= b < next.done.len() implies next.done[a].key()
                    <= next.done[b].key() by {
                    if b == s.done.len() && a < b {
                        assert(s.done[a].key() <= lower(s.todo[n - 1]).key());
                    }
                }
                assert forall|i: int, k: int|
                    0 <= i < next.todo.len() && 0 <= k < next.done.len() implies (
                #[trigger] next.done[k]).key() <= lower(#[trigger] next.todo[i]).key() by {
                    assert(next.todo[i] == s.todo[i]);
                    if k == s.done.len() {
                        assert(upper(s.todo[n - 1]).key() <= lower(s.todo[i]).key());
                    } else {
                        assert(next.done[k] == s.done[k]);
                    }
                }
                assert(next.in_order());
                lemma_settling_keeps_order(next);
            },
            Task::Examine(iv) => {
                let next = Subdivision { todo: rest, done: s.done };
                assert(lower(s.todo[n - 1]) == iv.lo && upper(s.todo[n - 1]) == iv.hi);
                assert(next.in_order());
                if iv.depth < MAX_DEPTH {
                    assert forall|i: int| 0 <= i < next.todo.len() implies iv.hi.key() <= lower(
                        #[trigger] next.todo[i],
                    ).key() by {
                        assert(next.todo[i] == s.todo[i]);
                        assert(upper(s.todo[n - 1]).key() <= lower(s.todo[i]).key());
                    }
                    assert forall|k: int| 0 <= k < next.done.len() implies (
                    #[trigger] next.done[k]).key() <= iv.lo.key() by {
                        assert(s.done[k].key() <= lower(s.todo[n - 1]).key());
                    }
                } else {
                    lemma_settling_keeps_order(next);
                }
            },
        }
    }
}

/// The positions come out in order. Where the work lies in order and the
/// caller halves the interval handed out at a position between its ends,
/// the work lies in order again; and so what is put down at the end never
/// decreases.
pub proof fn lemma_round_keeps_order(s: Subdivision, mid: Scalar)
    requires
        s.in_order(),
        s.settled().1 is Some,
        s.settled().1->Some_0.lo.key() <= mid.key() <= s.settled().1->Some_0.hi.key(),
    ensures
        s.settled().0.in_order(),
        s.settled().0.halved(s.settled().1->Some_0, mid).in_order(),
{
    lemma_settling_keeps_order(s);
    lemma_settling_reduces_work(s);
    let t = s.settled().0;
    let iv = s.settled().1->Some_0;
    let a = Task::Examine(Interval { lo: mid, hi: iv.hi, depth: (iv.depth + 1) as u32 });
    let b = Task::Emit(mid);
    let c = Task::Examine(Interval { lo: iv.lo, hi: mid, depth: (iv.depth + 1) as u32 });
    let n = t.todo.len() as int;
    let now = t.halved(iv, mid);
    assert(now.todo == t.todo.push(a).push(b).push(c));
    assert(now.todo[n] == a && now.todo[n + 1] == b && now.todo[n + 2] == c);
    assert forall|i: int| 0 <= i < n implies now.todo[i] == t.todo[i] by {}
    assert forall|i: int| 0 <= i < now.todo.len() implies lower(#[trigger] now.todo[i]).key()
        <= upper(now.todo[i]).key() by {
        if i < n {
            assert(now.todo[i] == t.todo[i]);
        }
    }
    assert forall|i: int, j: int| 0 <= i < j < now.todo.len() implies upper(
        #[trigger] now.todo[j],
    ).key() <= lower(#[trigger] now.todo[i]).key() by {
        if i < n {
            assert(now.todo[i] == t.todo[i]);
            assert(iv.hi.key() <= lower(t.todo[i]).key());
            if j < n {
                assert(now.todo[j] == t.todo[j]);
            }
        }
    }
    assert forall|i: int, k: int|
        0 <= i < now.todo.len() && 0 <= k < now.done.len() implies (#[trigger] now.done[k]).key()
            <= lower(#[trigger] now.todo[i]).key() by {
        assert(t.done[k].key() <= iv.lo.key());
        if i < n {
            assert(now.todo[i] == t.todo[i]);
        }
    }
}

/// Settling never adds work, and takes the weight of the interval it
/// hands out off the work.
pub proof fn lemma_settling_reduces_work(s: Subdivision)
    ensures
        work(s.settled().0.todo) + (match s.settled().1 {
            Some(iv) => examine_weight(iv.depth as int),
            None => 0,
        }) <= work(s.todo),
        s.settled().1 is None ==> s.settled().0.todo.len() == 0,
        s.settled().1 matches Some(iv) ==> iv.depth < MAX_DEPTH,
    decreases s.todo.len(),
{
    if s.todo.len() > 0 {
        let rest = s.todo.drop_last();
        match s.todo.last() {
            Task::Emit(t) => {
                lemma_settling_reduces_work(Subdivision { todo: rest, done: s.done.push(t) });
            },
            Task::Examine(iv) => {
                lemma_weight_is_positive(iv.depth as int);
                if iv.depth >= MAX_DEPTH {
                    lemma_settling_reduces_work(Subdivision { todo: rest, done: s.done });
                }
            },
        }
    }
}

pub proof fn lemma_weight_is_positive(d: int)
    ensures
        examine_weight(d) >= 1,
    decreases MAX_DEPTH - d,
{
    if d < MAX_DEPTH {
        lemma_weight_is_positive(d + 1);
    }
}

/// The subdivision ends. Each round, which is settling and then halving the
/// interval handed out, leaves less work than there was; so there are at
/// most `work` rounds, however the caller judges.
pub proof fn lemma_round_reduces_work(s: Subdivision, mid: Scalar)
    requires
        s.settled().1 is Some,
    ensures
        work(s.settled().0.halved(s.settled().1->Some_0, mid).todo) < work(s.todo),
        work(s.settled().0.todo) < work(s.todo),
{
    lemma_settling_reduces_work(s);
    let iv = s.settled().1->Some_0;
    let t = s.settled().0;
    let d = iv.depth as int;
    lemma_weight_is_positive(d);
    let a = Task::Examine(Interval { lo: mid, hi: iv.hi, depth: (iv.depth + 1) as u32 });
    let b = Task::Emit(mid);
    let c = Task::Examine(Interval { lo: iv.lo, hi: mid, depth: (iv.depth + 1) as u32 });
    let t1 = t.todo.push(a);
    let t2 = t1.push(b);
    let t3 = t2.push(c);
    assert(t1.drop_last() =~= t.todo);
    assert(t2.drop_last() =~= t1);
    assert(t3.drop_last() =~= t2);
    assert(t1.last() == a && t2.last() == b && t3.last() == c);
    assert(weight(a) == examine_weight(d + 1) && weight(c) == examine_weight(d + 1));
    assert(work(t1) == work(t.todo) + weight(a));
    assert(work(t2) == work(t1) + weight(b));
    assert(work(t3) == work(t2) + weight(c));
    assert(examine_weight(d) == 2 * examine_weight(d + 1) + 2);
}

/// The most positions that an interval at depth `d` can come to put down:
/// none at the greatest depth, and else the one at which it is halved and
/// those of its two halves.
pub open spec fn emit_bound(d: int) -> int
    decreases MAX_DEPTH - d,
{
    if d >= MAX_DEPTH {
        0
    } else {
        2 * emit_bound(d + 1) + 1
    }
}

/// The most positions that a task can come to put down.
pub open spec fn room(task: Task) -> int {
    match task {
        Task::Examine(iv) => emit_bound(iv.depth as int),
        Task::Emit(_) => 1,
    }
}

/// The most positions that the work to do can come to put down.
pub open spec fn capacity(todo: Seq<Task>) -> int
    decreases todo.len(),
{
    if todo.len() == 0 {
        0
    } else {
        capacity(todo.drop_last()) + room(todo.last())
    }
}

impl Subdivision {
    /// The state after one round: the walk moves on to the next interval,
    /// and the caller halves it at `answer`, or leaves it whole.
    pub open spec fn answered(self, answer: Option<Scalar>) -> Subdivision {
        match (self.settled().1, answer) {
            (Some(iv), Some(mid)) => self.settled().0.halved(iv, mid),
            _ => self.settled().0,
        }
    }

    /// The state after as many rounds as there are answers.
    pub open spec fn after(self, answers: Seq<Option<Scalar>>) -> Subdivision
        decreases answers.len(),
    {
        if answers.len() == 0 {
            self
        } else {
            self.answered(answers[0]).after(answers.drop_first())
        }
    }

    /// The positions put down, and those that may still come.
    pub open spec fn reach(self) -> int {
        self.done.len() + capacity(self.todo)
    }
}

pub proof fn lemma_emit_bound(d: int)
    ensures
        emit_bound(d) >= 0,
        d == 0 ==> emit_bound(d) == 127,
    decreases MAX_DEPTH - d,
{
    if d < MAX_DEPTH {
        lemma_emit_bound(d + 1);
    }
    if d == 0 {
        assert(emit_bound(7) == 0);
        assert(emit_bound(6) == 1);
        assert(emit_bound(5) == 3);
        assert(emit_bound(4) == 7);
        assert(emit_bound(3) == 15);
        assert(emit_bound(2) == 31);
        assert(emit_bound(1) == 63);
    }
}

/// Settling puts down no more than there was room for.
pub proof fn lemma_settling_keeps_reach(s: Subdivision)
    ensures
        s.settled().0.reach() + (match s.settled().1 {
            Some(iv) => emit_bound(iv.depth as int),
            None => 0,
        }) <= s.reach(),
    decreases s.todo.len(),
{
    if s.todo.len() > 0 {
        let rest = s.todo.drop_last();
        match s.todo.last() {
            Task::Emit(t) => {
                lemma_settling_keeps_reach(Subdivision { todo: rest, done: s.done.push(t) });
            },
            Task::Examine(iv) => {
                lemma_emit_bound(iv.depth as int);
                if iv.depth >= MAX_DEPTH {
                    lemma_settling_keeps_reach(Subdivision { todo: rest, done: s.done });
                }
            },
        }
    }
}

/// A round puts down no more than there was room for, whatever the caller
/// answers.
pub proof fn lemma_round_keeps_reach(s: Subdivision, answer: Option<Scalar>)
    ensures
        s.answered(answer).reach() <= s.reach(),
{
    lemma_settling_keeps_reach(s);
    lemma_settling_reduces_work(s);
    let t = s.settled().0;
    match (s.settled().1, answer) {
        (Some(iv), Some(mid)) => {
            let d = iv.depth as int;
            lemma_emit_bound(d);
            let a = Task::Examine(Interval { lo: mid, hi: iv.hi, depth: (iv.depth + 1) as u32 });
            let b = Task::Emit(mid);
            let c = Task::Examine(Interval { lo: iv.lo, hi: mid, depth: (iv.depth + 1) as u32 });
            let t1 = t.todo.push(a);
            let t2 = t1.push(b);
            let t3 = t2.push(c);
            assert(t1.drop_last() =~= t.todo);
            assert(t2.drop_last() =~= t1);
            assert(t3.drop_last() =~= t2);
            assert(t1.last() == a && t2.last() == b && t3.last() == c);
            assert(room(a) == emit_bound(d + 1) && room(c) == emit_bound(d + 1));
            assert(capacity(t1) == capacity(t.todo) + room(a));
            assert(capacity(t2) == capacity(t1) + room(b));
            assert(capacity(t3) == capacity(t2) + room(c));
            assert(emit_bound(d) == 2 * emit_bound(d + 1) + 1);
        },
        (Some(iv), None) => {
            lemma_emit_bound(iv.depth as int);
        },
        _ => {},
    }
}

/// However many rounds are made and however the caller answers, no more is
/// put down than there was room for at the start.
pub proof fn lemma_rounds_keep_reach(s: Subdivision, answers: Seq<Option<Scalar>>)
    ensures
        s.after(answers).done.len() <= s.after(answers).reach() <= s.reach(),
    decreases answers.len(),
{
    lemma_capacity_is_no_less_than_zero(s.after(answers).todo);
    if answers.len() > 0 {
        lemma_round_keeps_reach(s, answers[0]);
        lemma_rounds_keep_reach(s.answered(answers[0]), answers.drop_first());
    }
}

pub proof fn lemma_capacity_is_no_less_than_zero(todo: Seq<Task>)
    ensures
        capacity(todo) >= 0,
    decreases todo.len(),
{
    if todo.len() > 0 {
        lemma_capacity_is_no_less_than_zero(todo.drop_last());
        match todo.last() {
            Task::Examine(iv) => {
                lemma_emit_bound(iv.depth as int);
            },
            Task::Emit(_) => {},
        }
    }
}

/// The room that seed positions make: one position for each seed, and 127
/// for each interval between two of them.
pub proof fn lemma_plan_capacity(seeds: Seq<Scalar>, k: int)
    requires
        0 <= k <= seeds.len(),
    ensures
        capacity(plan(seeds, k)) == if k == seeds.len() {
            0
        } else {
            (seeds.len() - k) + (seeds.len() - k - 1) * 127
        },
    decreases seeds.len() - k,
{
    if k < seeds.len() {
        lemma_plan_capacity(seeds, k + 1);
        lemma_emit_bound(0);
        let rest = plan(seeds, k + 1);
        if k + 1 < seeds.len() {
            let e = Task::Examine(Interval { lo: seeds[k], hi: seeds[k + 1], depth: 0 });
            let one = rest.push(e);
            let two = one.push(Task::Emit(seeds[k]));
            assert(plan(seeds, k) == two);
            assert(one.drop_last() =~= rest);
            assert(two.drop_last() =~= one);
            assert(capacity(one) == capacity(rest) + room(e));
            assert(capacity(two) == capacity(one) + 1);
        } else {
            let one = rest.push(Task::Emit(seeds[k]));
            assert(plan(seeds, k) == one);
            assert(one.drop_last() =~= rest);
            assert(capacity(one) == capacity(rest) + 1);
        }
    }
}

/// The subdivision is bounded. From seed positions it puts down, however
/// the caller answers and however long it runs, at most one position for
/// each seed and 127 for each interval between two seeds.
pub proof fn lemma_positions_are_bounded(seeds: Seq<Scalar>, answers: Seq<Option<Scalar>>)
    ensures
        (Subdivision { todo: plan(seeds, 0), done: Seq::empty() }).after(answers).done.len()
            <= if seeds.len() == 0 {
            0
        } else {
            seeds.len() + (seeds.len() - 1) * 127
        },
{
    let start = Subdivision { todo: plan(seeds, 0), done: Seq::empty() };
    lemma_plan_capacity(seeds, 0);
    lemma_rounds_keep_reach(start, answers);
}

/// Walks the intervals of a domain, halving those that the caller finds
/// bent, and puts the positions down in the order of the walk.
#[derive(Debug)]
pub struct Subdivider {
    todo: Vec<Task>,
    done: Vec<Scalar>,
}

impl View for Subdivider {
    type V = Subdivision;

    closed spec fn view(&self) -> Subdivision {
        Subdivision { todo: self.todo@, done: self.done@ }
    }
}

impl Subdivider {
    /// Begins with the seed positions: each will be put down, and each
    /// interval between two of them examined.
    pub fn new(seeds: &[Scalar]) -> (s: Self)
        ensures
            s@ == (Subdivision { todo: plan(seeds@, 0), done: Seq::empty() }),
    {
        let mut todo: Vec<Task> = Vec::new();
        let mut k: usize = seeds.len();
        while k > 0
            invariant
                k <= seeds@.len(),
                todo@ == plan(seeds@, k as int),
            decreases k,
        {
            k = k - 1;
            if k + 1 < seeds.len() {
                todo.push(Task::Examine(Interval { lo: seeds[k], hi: seeds[k + 1], depth: 0 }));
            }
            todo.push(Task::Emit(seeds[k]));
        }
        Subdivider { todo, done: Vec::new() }
    }

    /// Moves on to the next interval that is to be examined, and hands it
    /// out; `None` when the work is done.
    pub fn next(&mut self) -> (iv: Option<Interval>)
        ensures
            (final(self)@, iv) == old(self)@.settled(),
    {
        loop
            invariant
                self@.settled() == old(self)@.settled(),
            decreases self.todo@.len(),
        {
            let ghost before = self@;
            match self.todo.pop() {
                None => {
                    return None;
                },
                Some(Task::Emit(t)) => {
                    self.done.push(t);
                    assert(self.todo@ =~= before.todo.drop_last());
                },
                Some(Task::Examine(iv)) => {
                    assert(self.todo@ =~= before.todo.drop_last());
                    if iv.depth < MAX_DEPTH {
                        return Some(iv);
                    }
                },
            }
        }
    }

    /// Halves `iv` at `mid`: the caller found the gradient bent over it.
    pub fn split(&mut self, iv: Interval, mid: Scalar)
        ensures
            final(self)@ == old(self)@.halved(iv, mid),
    {
        if iv.depth < MAX_DEPTH {
            self.todo.push(Task::Examine(Interval { lo: mid, hi: iv.hi, depth: iv.depth + 1 }));
            self.todo.push(Task::Emit(mid));
            self.todo.push(Task::Examine(Interval { lo: iv.lo, hi: mid, depth: iv.depth + 1 }));
        }
    }

    /// The positions put down.
    pub fn finish(self) -> (positions: Vec<Scalar>)
        ensures
            positions@ == self@.done,
    {
        self.done
    }
}

} // verus!
