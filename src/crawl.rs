//! The closure crawler's bookkeeping: pending work shared by all workers, the
//! visited set owned by the expansion worker, and the decisions between them.
use vstd::prelude::*;

use crate::drv::{has_version_spec, DrvPath};

verus! {

/// Most node ids handed to one batch query.
pub const BATCH_CAP: usize = 30;

/// The text forms of a sequence of paths.
pub open spec fn ids(v: Seq<DrvPath>) -> Seq<Seq<char>> {
    v.map_values(|d: DrvPath| d@)
}

/// Work that is still to be done: node ids waiting for expansion, and the
/// number of resolution requests issued but not yet finished.
///
/// Ghost state records every id ever queued and how many resolutions were
/// dispatched and completed, so that the crawl's guarantees can be stated.
pub struct Frontier {
    queue: Vec<DrvPath>,
    inflight: u64,
    discovered: Ghost<Set<Seq<char>>>,
    dispatched: Ghost<nat>,
    completed: Ghost<nat>,
}

/// What the expansion worker does next.
#[derive(PartialEq, Eq, Debug, Clone, Copy)]
pub enum Step {
    /// Take a batch from the queue and query it.
    Expand,
    /// Nothing is queued but resolutions are running: back off and look again.
    Wait,
    /// Nothing is queued and nothing is running: the closure is complete.
    Finish,
}

impl Frontier {
    /// The ids waiting in the queue.
    pub closed spec fn queued(&self) -> Seq<Seq<char>> {
        ids(self.queue@)
    }

    pub closed spec fn inflight_spec(&self) -> nat {
        self.inflight as nat
    }

    /// Every id that was ever queued.
    pub closed spec fn discovered(&self) -> Set<Seq<char>> {
        self.discovered@
    }

    /// Resolution requests dispatched so far.
    pub closed spec fn dispatched(&self) -> nat {
        self.dispatched@
    }

    /// Resolution requests finished so far, successfully or not.
    pub closed spec fn completed(&self) -> nat {
        self.completed@
    }

    /// Every queued id was discovered, and the counter is exactly the
    /// dispatched resolutions that have not completed.
    pub open spec fn wf(&self) -> bool {
        &&& self.queued().to_set().subset_of(self.discovered())
        &&& self.dispatched() == self.completed() + self.inflight_spec()
    }

    /// Every discovered id is either among `visited` or still queued, and
    /// only discovered ids are among `visited`.
    pub open spec fn covered_by(&self, visited: Seq<Seq<char>>) -> bool {
        &&& forall|x| #[trigger] self.discovered().contains(x) ==> visited.contains(x) || self.queued().contains(x)
        &&& forall|x| #[trigger] visited.contains(x) ==> self.discovered().contains(x)
    }

    /// A frontier holding the root alone.
    pub fn new(root: DrvPath) -> (r: Frontier)
        ensures
            r.wf(),
            r.queued() == seq![root@],
            r.inflight_spec() == 0,
            r.discovered() == set![root@],
            r.dispatched() == 0,
            r.completed() == 0,
            r.covered_by(Seq::empty()),
    {
        let mut queue: Vec<DrvPath> = Vec::new();
        let ghost g = root@;
        queue.push(root);
        let r = Frontier {
            queue,
            inflight: 0,
            discovered: Ghost(Set::empty().insert(g)),
            dispatched: Ghost(0),
            completed: Ghost(0),
        };
        assert(r.queued() =~= seq![g]);
        assert(r.queued().to_set() =~= set![g]) by {
            assert(r.queued()[0] == g);
        }
        assert(r.queued().contains(g)) by {
            assert(r.queued()[0] == g);
        }
        r
    }

    /// Number of queued ids, duplicates included.
    pub fn len(&self) -> (r: usize)
        ensures
            r == self.queued().len(),
    {
        self.queue.len()
    }

    /// Number of resolutions in flight.
    pub fn inflight(&self) -> (r: u64)
        ensures
            r == self.inflight_spec(),
    {
        self.inflight
    }

    /// Queues an id; it may already have been visited.
    pub fn push(&mut self, d: DrvPath)
        requires
            old(self).wf(),
        ensures
            final(self).wf(),
            final(self).queued() == old(self).queued().push(d@),
            final(self).inflight_spec() == old(self).inflight_spec(),
            final(self).discovered() == old(self).discovered().insert(d@),
            final(self).dispatched() == old(self).dispatched(),
            final(self).completed() == old(self).completed(),
            forall|v: Seq<Seq<char>>| old(self).covered_by(v) ==> #[trigger] final(self).covered_by(v),
    {
        let ghost g = d@;
        self.queue.push(d);
        self.discovered = Ghost(self.discovered@.insert(g));
        assert(self.queued() =~= old(self).queued().push(g));
        assert forall|x| self.queued().to_set().contains(x) implies self.discovered@.contains(x) by {
            if x != g {
                let i = choose|i: int| 0 <= i < self.queued().len() && self.queued()[i] == x;
                assert(old(self).queued()[i] == x);
                assert(old(self).queued().to_set().contains(x));
            }
        }
        assert forall|v: Seq<Seq<char>>| old(self).covered_by(v) implies #[trigger] self.covered_by(v) by {
            assert forall|x| #[trigger] self.discovered().contains(x) implies v.contains(x) || self.queued().contains(x) by {
                if x == g {
                    assert(self.queued()[self.queued().len() - 1] == g);
                } else if !v.contains(x) {
                    assert(old(self).queued().contains(x));
                    let i = choose|i: int| 0 <= i < old(self).queued().len() && old(self).queued()[i] == x;
                    assert(self.queued()[i] == x);
                }
            }
        }
    }

    /// Queues every id of `ds`, in order.
    pub fn push_all(&mut self, ds: Vec<DrvPath>)
        requires
            old(self).wf(),
        ensures
            final(self).wf(),
            final(self).queued() == old(self).queued() + ids(ds@),
            final(self).inflight_spec() == old(self).inflight_spec(),
            final(self).discovered() == old(self).discovered().union(ids(ds@).to_set()),
            final(self).dispatched() == old(self).dispatched(),
            final(self).completed() == old(self).completed(),
            forall|v: Seq<Seq<char>>| old(self).covered_by(v) ==> #[trigger] final(self).covered_by(v),
    {
        let mut ds = ds;
        let ghost all = ids(ds@);
        let mut rest: Vec<DrvPath> = Vec::new();
        // Reverse first so that popping from the end yields `ds` in order.
        while ds.len() > 0
            invariant
                ids(ds@) + ids(rest@).reverse() == all,
            decreases ds.len(),
        {
            let ghost d0 = ids(ds@);
            let ghost r0 = ids(rest@);
            let d = ds.pop().unwrap();
            rest.push(d);
            assert(ids(ds@) =~= d0.drop_last());
            assert(ids(rest@) =~= r0.push(d0.last()));
            assert(ids(rest@).reverse() =~= seq![d0.last()] + r0.reverse());
            assert(d0 =~= d0.drop_last() + seq![d0.last()]);
            assert(ids(ds@) + ids(rest@).reverse() =~= all);
        }
        assert(ids(rest@).reverse() =~= all);
        let ghost done = Seq::<Seq<char>>::empty();
        while rest.len() > 0
            invariant
                self.wf(),
                done + ids(rest@).reverse() == all,
                self.queued() == old(self).queued() + done,
                self.inflight_spec() == old(self).inflight_spec(),
                self.discovered() == old(self).discovered().union(done.to_set()),
                self.dispatched() == old(self).dispatched(),
                self.completed() == old(self).completed(),
                forall|v: Seq<Seq<char>>| old(self).covered_by(v) ==> #[trigger] self.covered_by(v),
            decreases rest.len(),
        {
            let ghost r0 = ids(rest@);
            let d = rest.pop().unwrap();
            let ghost g = d@;
            assert(ids(rest@) =~= r0.drop_last());
            assert(r0.reverse() =~= seq![g] + ids(rest@).reverse());
            self.push(d);
            proof {
                done.lemma_push_to_set_commute(g);
                done = done.push(g);
                assert(done + ids(rest@).reverse() =~= all);
            }
            assert(self.queued() =~= old(self).queued() + done);
            assert(self.discovered() =~= old(self).discovered().union(done.to_set()));
        }
        assert(done =~= all);
    }

    /// Takes the most recently queued id, if any.
    pub fn try_pop(&mut self) -> (r: Option<DrvPath>)
        requires
            old(self).wf(),
        ensures
            final(self).wf(),
            final(self).inflight_spec() == old(self).inflight_spec(),
            final(self).discovered() == old(self).discovered(),
            final(self).dispatched() == old(self).dispatched(),
            final(self).completed() == old(self).completed(),
            old(self).queued().len() == 0 ==> r is None && final(self).queued() == old(self).queued(),
            old(self).queued().len() > 0 ==> (r matches Some(d) && d@ == old(self).queued().last()
                && final(self).queued() == old(self).queued().drop_last()),
    {
        let r = self.queue.pop();
        proof {
            if old(self).queue.len() > 0 {
                assert(self.queued() =~= old(self).queued().drop_last());
                assert forall|x| self.queued().to_set().contains(x) implies self.discovered@.contains(x) by {
                    let i = choose|i: int| 0 <= i < self.queued().len() && self.queued()[i] == x;
                    assert(old(self).queued()[i] == x);
                    assert(old(self).queued().to_set().contains(x));
                }
            }
        }
        r
    }

    /// Records one resolution request about to be sent.
    pub fn dispatch(&mut self)
        requires
            old(self).wf(),
            old(self).inflight_spec() < u64::MAX,
        ensures
            final(self).wf(),
            final(self).queued() == old(self).queued(),
            final(self).inflight_spec() == old(self).inflight_spec() + 1,
            final(self).discovered() == old(self).discovered(),
            final(self).dispatched() == old(self).dispatched() + 1,
            final(self).completed() == old(self).completed(),
    {
        self.inflight = self.inflight + 1;
        self.dispatched = Ghost(self.dispatched@ + 1);
    }

    /// Records what one batch query found: queues its inputs in order and
    /// dispatches one resolution per target. Refuses, changing nothing, when
    /// the counter would overflow.
    pub fn record_expansion(&mut self, inputs: Vec<DrvPath>, targets: usize) -> (r: bool)
        requires
            old(self).wf(),
        ensures
            final(self).wf(),
            r == (old(self).inflight_spec() + targets <= u64::MAX),
            r ==> final(self).queued() == old(self).queued() + ids(inputs@)
                && final(self).inflight_spec() == old(self).inflight_spec() + targets
                && final(self).discovered() == old(self).discovered().union(ids(inputs@).to_set())
                && final(self).dispatched() == old(self).dispatched() + targets
                && final(self).completed() == old(self).completed(),
            !r ==> *final(self) == *old(self),
            forall|v: Seq<Seq<char>>| old(self).covered_by(v) ==> #[trigger] final(self).covered_by(v),
    {
        if targets as u64 > u64::MAX - self.inflight {
            return false;
        }
        self.push_all(inputs);
        let ghost before = *self;
        self.inflight = self.inflight + targets as u64;
        self.dispatched = Ghost(self.dispatched@ + targets as nat);
        assert forall|v: Seq<Seq<char>>| old(self).covered_by(v) implies #[trigger] self.covered_by(v) by {
            assert(before.covered_by(v));
        }
        true
    }

    /// Records the end of one resolution: its node id, when it succeeded, is
    /// queued; a failure leaves the queue as it was.
    pub fn complete(&mut self, resolved: Option<DrvPath>)
        requires
            old(self).wf(),
            old(self).inflight_spec() > 0,
        ensures
            final(self).wf(),
            final(self).inflight_spec() == old(self).inflight_spec() - 1,
            final(self).dispatched() == old(self).dispatched(),
            final(self).completed() == old(self).completed() + 1,
            forall|v: Seq<Seq<char>>| old(self).covered_by(v) ==> #[trigger] final(self).covered_by(v),
            match resolved {
                Some(d) => final(self).queued() == old(self).queued().push(d@)
                    && final(self).discovered() == old(self).discovered().insert(d@),
                None => final(self).queued() == old(self).queued()
                    && final(self).discovered() == old(self).discovered(),
            },
    {
        if let Some(d) = resolved {
            self.push(d);
        }
        let ghost before = *self;
        self.inflight = self.inflight - 1;
        self.completed = Ghost(self.completed@ + 1);
        assert forall|v: Seq<Seq<char>>| old(self).covered_by(v) implies #[trigger] self.covered_by(v) by {
            assert(before.covered_by(v));
        }
    }

    /// Expand while anything is queued; otherwise wait for running
    /// resolutions, and finish once there are none.
    pub fn next_step(&self) -> (r: Step)
        ensures
            r == Step::Expand <==> self.queued().len() > 0,
            r == Step::Wait <==> self.queued().len() == 0 && self.inflight_spec() > 0,
            r == Step::Finish <==> self.queued().len() == 0 && self.inflight_spec() == 0,
    {
        if self.queue.len() > 0 {
            Step::Expand
        } else if self.inflight > 0 {
            Step::Wait
        } else {
            Step::Finish
        }
    }
}

/// The ids of `popped`, in order, that are not in `visited` and do not repeat
/// an earlier one.
pub open spec fn fresh_ids(visited: Seq<Seq<char>>, popped: Seq<Seq<char>>) -> Seq<Seq<char>>
    decreases popped.len(),
{
    if popped.len() == 0 {
        Seq::empty()
    } else {
        let f = fresh_ids(visited, popped.drop_last());
        let x = popped.last();
        if visited.contains(x) || f.contains(x) {
            f
        } else {
            f.push(x)
        }
    }
}

/// What popping a queue down to length `k` yields, in pop order.
pub open spec fn popped_from(q: Seq<Seq<char>>, k: int) -> Seq<Seq<char>> {
    q.subrange(k, q.len() as int).reverse()
}

/// The ids that have been handed to batch queries, each exactly once.
///
/// Only the expansion worker holds it; ghost state keeps the batches in the
/// order they were taken.
pub struct Seen {
    items: Vec<DrvPath>,
    batches: Ghost<Seq<Seq<Seq<char>>>>,
}

impl Seen {
    /// Visited ids in the order they were taken.
    pub closed spec fn visited(&self) -> Seq<Seq<char>> {
        ids(self.items@)
    }

    /// The batches taken so far, in order.
    pub closed spec fn batches(&self) -> Seq<Seq<Seq<char>>> {
        self.batches@
    }

    /// No id is visited twice, the visited ids are the batches laid end to
    /// end, and no batch exceeds the cap.
    pub open spec fn wf(&self) -> bool {
        &&& self.visited().no_duplicates()
        &&& self.batches().flatten_alt() == self.visited()
        &&& forall|i: int| 0 <= i < self.batches().len() ==> #[trigger] self.batches()[i].len() <= BATCH_CAP
    }

    /// Nothing visited yet.
    pub fn new() -> (r: Seen)
        ensures
            r.wf(),
            r.visited().len() == 0,
            r.batches().len() == 0,
    {
        let r = Seen { items: Vec::new(), batches: Ghost(Seq::empty()) };
        assert(r.visited() =~= Seq::empty());
        r
    }

    /// Number of visited ids.
    pub fn len(&self) -> (r: usize)
        ensures
            r == self.visited().len(),
    {
        self.items.len()
    }

    /// Whether `d` was visited.
    pub fn contains(&self, d: &DrvPath) -> (r: bool)
        ensures
            r == self.visited().contains(d@),
    {
        let mut i: usize = 0;
        while i < self.items.len()
            invariant
                i <= self.items.len(),
                forall|j: int| 0 <= j < i ==> self.visited()[j] != d@,
            decreases self.items.len() - i,
        {
            if self.items[i].same(d) {
                assert(self.visited()[i as int] == d@);
                return true;
            }
            i = i + 1;
        }
        false
    }

    /// Takes ids from the queue until `n` unvisited ones are gathered or the
    /// queue runs dry. Each taken id is marked visited and returned once;
    /// ids visited before are dropped from the queue.
    pub fn take_max(&mut self, from_queue: &mut Frontier, n: usize) -> (r: Vec<DrvPath>)
        requires
            old(self).wf(),
            old(from_queue).wf(),
            n <= BATCH_CAP,
        ensures
            final(self).wf(),
            final(from_queue).wf(),
            r.len() <= n,
            final(self).visited() == old(self).visited() + ids(r@),
            final(self).batches() == old(self).batches().push(ids(r@)),
            forall|i: int| 0 <= i < r.len() ==> !old(self).visited().contains(#[trigger] r@[i]@),
            ({
                let k = final(from_queue).queued().len();
                &&& k <= old(from_queue).queued().len()
                &&& final(from_queue).queued() == old(from_queue).queued().subrange(0, k as int)
                &&& forall|j: int| k <= j < old(from_queue).queued().len()
                    ==> final(self).visited().contains(#[trigger] old(from_queue).queued()[j])
                &&& r.len() < n ==> k == 0
                &&& ids(r@) == fresh_ids(old(self).visited(), popped_from(old(from_queue).queued(), k as int))
                &&& k < old(from_queue).queued().len() ==> fresh_ids(
                    old(self).visited(),
                    popped_from(old(from_queue).queued(), k as int).drop_last(),
                ).len() < n
            }),
            final(from_queue).inflight_spec() == old(from_queue).inflight_spec(),
            final(from_queue).discovered() == old(from_queue).discovered(),
            final(from_queue).dispatched() == old(from_queue).dispatched(),
            final(from_queue).completed() == old(from_queue).completed(),
            old(from_queue).covered_by(old(self).visited()) ==> final(from_queue).covered_by(final(self).visited()),
    {
        let mut res: Vec<DrvPath> = Vec::new();
        let ghost v0 = self.visited();
        let ghost q0 = from_queue.queued();
        let mut drained = false;
        while res.len() < n && !drained
            invariant
                old(from_queue).wf(),
                from_queue.wf(),
                q0 == old(from_queue).queued(),
                v0 == old(self).visited(),
                v0.no_duplicates(),
                self.batches() == old(self).batches(),
                self.visited() == v0 + ids(res@),
                self.visited().no_duplicates(),
                res.len() <= n,
                from_queue.queued().len() <= q0.len(),
                from_queue.queued() == q0.subrange(0, from_queue.queued().len() as int),
                forall|j: int| from_queue.queued().len() <= j < q0.len()
                    ==> self.visited().contains(#[trigger] q0[j]),
                drained ==> from_queue.queued().len() == 0,
                ids(res@) == fresh_ids(v0, popped_from(q0, from_queue.queued().len() as int)),
                from_queue.queued().len() < q0.len() ==> fresh_ids(
                    v0,
                    popped_from(q0, from_queue.queued().len() as int).drop_last(),
                ).len() < n,
                from_queue.inflight_spec() == old(from_queue).inflight_spec(),
                from_queue.discovered() == old(from_queue).discovered(),
                from_queue.dispatched() == old(from_queue).dispatched(),
                from_queue.completed() == old(from_queue).completed(),
                old(from_queue).covered_by(v0) ==> from_queue.covered_by(self.visited()),
            decreases from_queue.queued().len(), if drained { 0int } else { 1int },
        {
            let ghost vis = self.visited();
            let ghost qb = from_queue.queued();
            match from_queue.try_pop() {
                Some(elem) => {
                    let ghost e = elem@;
                    assert(qb.last() == e);
                    let ghost pq = popped_from(q0, qb.len() as int);
                    let ghost r_before = ids(res@);
                    assert(popped_from(q0, qb.len() - 1) =~= pq.push(e)) by {
                        assert(q0[qb.len() - 1] == qb[qb.len() - 1]);
                    }
                    assert(pq.push(e).drop_last() =~= pq);
                    assert(vis.contains(e) <==> (v0.contains(e) || r_before.contains(e))) by {
                        if vis.contains(e) {
                            let i = choose|i: int| 0 <= i < vis.len() && vis[i] == e;
                            if i >= v0.len() {
                                assert(r_before[i - v0.len()] == e);
                            }
                        }
                        if r_before.contains(e) {
                            let i = choose|i: int| 0 <= i < r_before.len() && r_before[i] == e;
                            assert(vis[v0.len() + i] == e);
                        }
                        if v0.contains(e) {
                            let i = choose|i: int| 0 <= i < v0.len() && v0[i] == e;
                            assert(vis[i] == e);
                        }
                    }
                    assert(from_queue.discovered().contains(e)) by {
                        assert(qb[qb.len() - 1] == e);
                        assert(qb.to_set().contains(e));
                    }
                    if !self.contains(&elem) {
                        let ghost r0 = ids(res@);
                        let copy = elem.clone();
                        self.items.push(copy);
                        res.push(elem);
                        assert(self.visited() =~= vis.push(e));
                        assert(ids(res@) =~= r0.push(e));
                        assert(self.visited() =~= v0 + ids(res@));
                        assert(self.visited().no_duplicates()) by {
                            assert forall|a: int, b: int| 0 <= a < b < self.visited().len()
                                implies self.visited()[a] != self.visited()[b] by {
                                if b == self.visited().len() - 1 {
                                    assert(vis[a] == self.visited()[a]);
                                }
                            }
                        }
                    }
                    assert(self.visited() == vis || self.visited() == vis.push(e));
                    assert(self.visited().contains(e)) by {
                        if vis.contains(e) {
                            let i = choose|i: int| 0 <= i < vis.len() && vis[i] == e;
                            assert(self.visited()[i] == e);
                        } else {
                            assert(self.visited()[self.visited().len() - 1] == e);
                        }
                    }
                    assert forall|j: int| from_queue.queued().len() <= j < q0.len()
                        implies self.visited().contains(#[trigger] q0[j]) by {
                        if j == from_queue.queued().len() {
                            assert(q0[j] == qb[j]);
                        } else {
                            let i = choose|i: int| 0 <= i < vis.len() && vis[i] == q0[j];
                            assert(self.visited()[i] == q0[j]);
                        }
                    }
                    assert(from_queue.queued() =~= q0.subrange(0, from_queue.queued().len() as int));
                    proof {
                        if old(from_queue).covered_by(v0) {
                            assert forall|x| #[trigger] from_queue.discovered().contains(x)
                                implies self.visited().contains(x) || from_queue.queued().contains(x) by {
                                if vis.contains(x) {
                                    let i = choose|i: int| 0 <= i < vis.len() && vis[i] == x;
                                    assert(self.visited()[i] == x);
                                } else if x == e {
                                } else {
                                    assert(qb.contains(x));
                                    let i = choose|i: int| 0 <= i < qb.len() && qb[i] == x;
                                    assert(i < qb.len() - 1);
                                    assert(from_queue.queued()[i] == x);
                                }
                            }
                            assert forall|x| #[trigger] self.visited().contains(x)
                                implies from_queue.discovered().contains(x) by {
                                if x != e {
                                    let i = choose|i: int| 0 <= i < self.visited().len() && self.visited()[i] == x;
                                    if i < vis.len() {
                                        assert(vis[i] == x);
                                        assert(vis.contains(x));
                                    }
                                }
                            }
                        }
                    }
                },
                None => {
                    drained = true;
                },
            }
        }
        let ghost b = ids(res@);
        self.batches = Ghost(self.batches@.push(b));
        assert(self.batches@.drop_last() =~= old(self).batches());
        proof {
            assert forall|i: int| 0 <= i < self.batches().len() implies #[trigger] self.batches()[i].len() <= BATCH_CAP by {
                if i < self.batches().len() - 1 {
                    assert(self.batches()[i] == old(self).batches()[i]);
                }
            }
            assert forall|i: int| 0 <= i < res.len() implies !old(self).visited().contains(#[trigger] res@[i]@) by {
                let l = v0.len();
                assert(self.visited()[l + i] == res@[i]@);
                if v0.contains(res@[i]@) {
                    let j = choose|j: int| 0 <= j < v0.len() && v0[j] == res@[i]@;
                    assert(self.visited()[j] == res@[i]@);
                }
            }
        }
        res
    }
}

/// Resolution workers to run beside the expansion worker and the sink on a
/// machine with `parallelism` hardware threads: one fewer, but at least one.
pub fn resolver_count(parallelism: usize) -> (r: usize)
    ensures
        r == if parallelism > 1 { parallelism - 1 } else { 1 },
{
    if parallelism > 1 {
        parallelism - 1
    } else {
        1
    }
}

/// The sink's predicate on node ids.
pub open spec fn versioned() -> spec_fn(Seq<char>) -> bool {
    |x: Seq<char>| has_version_spec(x)
}

/// What the sink writes for a run of batches: each batch's versioned ids, in
/// order.
pub open spec fn sink_output(batches: Seq<Seq<Seq<char>>>) -> Seq<Seq<char>> {
    batches.map_values(|b: Seq<Seq<char>>| b.filter(versioned())).flatten_alt()
}

/// The lines the sink writes for one batch: the text of each versioned id, in
/// batch order.
pub fn output_lines(batch: &Vec<DrvPath>) -> (r: Vec<String>)
    ensures
        r@.map_values(|l: String| l@) == ids(batch@).filter(versioned()),
{
    let mut out: Vec<String> = Vec::new();
    let mut i: usize = 0;
    while i < batch.len()
        invariant
            i <= batch.len(),
            out@.map_values(|l: String| l@) == ids(batch@.subrange(0, i as int)).filter(versioned()),
        decreases batch.len() - i,
    {
        let ghost pre = ids(batch@.subrange(0, i as int));
        let ghost o0 = out@.map_values(|l: String| l@);
        assert(ids(batch@.subrange(0, i + 1)) =~= pre.push(batch@[i as int]@));
        proof {
            pre.lemma_filter_push(batch@[i as int]@, versioned());
        }
        if batch[i].has_version() {
            out.push(batch[i].as_str().to_owned());
            assert(out@.map_values(|l: String| l@) =~= o0.push(batch@[i as int]@));
        }
        i = i + 1;
    }
    assert(batch@.subrange(0, batch.len() as int) =~= batch@);
    out
}

proof fn lemma_filter_keeps_distinct(s: Seq<Seq<char>>, p: spec_fn(Seq<char>) -> bool)
    requires
        s.no_duplicates(),
    ensures
        s.filter(p).no_duplicates(),
        forall|x| s.filter(p).contains(x) <==> s.contains(x) && p(x),
    decreases s.len(),
{
    broadcast use vstd::seq_lib::group_filter_ensures;
    if s.len() == 0 {
        reveal(Seq::filter);
    } else {
        let init = s.drop_last();
        let last = s.last();
        assert(init.push(last) =~= s);
        assert(init.no_duplicates()) by {
            assert forall|a: int, b: int| 0 <= a < b < init.len() implies init[a] != init[b] by {
                assert(init[a] == s[a] && init[b] == s[b]);
            }
        }
        lemma_filter_keeps_distinct(init, p);
        init.lemma_filter_push(last, p);
        assert(!init.contains(last)) by {
            if init.contains(last) {
                let i = choose|i: int| 0 <= i < init.len() && init[i] == last;
                assert(s[i] == s[s.len() - 1]);
            }
        }
        let f = init.filter(p);
        if p(last) {
            assert(f.push(last).no_duplicates()) by {
                assert forall|a: int, b: int| 0 <= a < b < f.push(last).len()
                    implies f.push(last)[a] != f.push(last)[b] by {
                    if b == f.len() {
                        assert(f.contains(f[a]));
                    } else {
                        assert(f[a] == f.push(last)[a] && f[b] == f.push(last)[b]);
                    }
                }
            }
        }
        let sf = s.filter(p);
        assert(sf == if p(last) { f.push(last) } else { f });
        assert forall|x| sf.contains(x) <==> s.contains(x) && p(x) by {
            if s.contains(x) && x != last {
                let i = choose|i: int| 0 <= i < s.len() && s[i] == x;
                assert(init[i] == x);
            }
            if p(last) && x == last {
                assert(f.push(last)[f.len() as int] == last);
            }
            if p(x) && init.contains(x) {
                assert(f.contains(x));
                let i = choose|i: int| 0 <= i < f.len() && f[i] == x;
                if p(last) {
                    assert(f.push(last)[i] == x);
                }
            }
            if sf.contains(x) && x != last {
                assert(f.contains(x)) by {
                    if p(last) {
                        let i = choose|i: int| 0 <= i < f.push(last).len() && f.push(last)[i] == x;
                        assert(f[i] == x);
                    }
                }
                assert(init.contains(x) && p(x));
                let i = choose|i: int| 0 <= i < init.len() && init[i] == x;
                assert(s[i] == x);
            }
        }
    }
}

proof fn lemma_sink_output_filters(batches: Seq<Seq<Seq<char>>>)
    ensures
        sink_output(batches) == batches.flatten_alt().filter(versioned()),
    decreases batches.len(),
{
    if batches.len() == 0 {
        reveal(Seq::filter);
        assert(sink_output(batches) =~= Seq::empty());
    } else {
        let init = batches.drop_last();
        lemma_sink_output_filters(init);
        let m = batches.map_values(|b: Seq<Seq<char>>| b.filter(versioned()));
        assert(m.drop_last() =~= init.map_values(|b: Seq<Seq<char>>| b.filter(versioned())));
        Seq::filter_distributes_over_add(init.flatten_alt(), batches.last(), versioned());
    }
}

/// No id is handed to the batch query twice: laid end to end, the batches
/// taken so far hold each id at most once.
pub proof fn lemma_no_duplicate_processing(seen: &Seen)
    requires
        seen.wf(),
    ensures
        seen.batches().flatten_alt().no_duplicates(),
{
}

/// Once the queue is empty, every id that was ever queued (the root, the
/// dependencies reported by batch queries, and the results of successful
/// resolutions) has been visited.
pub proof fn lemma_closure_complete(seen: &Seen, frontier: &Frontier)
    requires
        seen.wf(),
        frontier.wf(),
        frontier.covered_by(seen.visited()),
        frontier.queued().len() == 0,
    ensures
        frontier.discovered().subset_of(seen.visited().to_set()),
{
    assert forall|x| frontier.discovered().contains(x) implies seen.visited().to_set().contains(x) by {
        assert(frontier.discovered().contains(x));
        if frontier.queued().contains(x) {
            let i = choose|i: int| 0 <= i < frontier.queued().len() && frontier.queued()[i] == x;
        }
    }
}

/// The sink, fed the batches in order, writes exactly the visited ids that
/// carry a version, each once.
pub proof fn lemma_sink_exact(seen: &Seen)
    requires
        seen.wf(),
    ensures
        sink_output(seen.batches()) == seen.visited().filter(versioned()),
        sink_output(seen.batches()).no_duplicates(),
        forall|x| #[trigger] sink_output(seen.batches()).contains(x)
            <==> seen.visited().contains(x) && has_version_spec(x),
{
    lemma_sink_output_filters(seen.batches());
    lemma_filter_keeps_distinct(seen.visited(), versioned());
}

/// The inflight counter is always the number of dispatched resolutions that
/// have not completed, so it is zero exactly when every one has completed.
pub proof fn lemma_inflight_accounting(frontier: &Frontier)
    requires
        frontier.wf(),
    ensures
        frontier.inflight_spec() + frontier.completed() == frontier.dispatched(),
        frontier.inflight_spec() == 0 <==> frontier.completed() == frontier.dispatched(),
{
}

/// Over a finite set of possible ids, the crawl visits at most that many ids,
/// so at most that many batches are non-empty.
pub proof fn lemma_visits_bounded(seen: &Seen, frontier: &Frontier, universe: Set<Seq<char>>)
    requires
        seen.wf(),
        frontier.covered_by(seen.visited()),
        universe.finite(),
        frontier.discovered().subset_of(universe),
    ensures
        seen.visited().len() <= universe.len(),
{
    let v = seen.visited();
    v.unique_seq_to_set();
    assert(v.to_set().subset_of(universe)) by {
        assert forall|x| v.to_set().contains(x) implies universe.contains(x) by {
            assert(v.contains(x));
        }
    }
    vstd::set_lib::lemma_len_subset(v.to_set(), universe);
}

/// No batch query receives more than the cap.
pub proof fn lemma_batch_cap(seen: &Seen)
    requires
        seen.wf(),
    ensures
        forall|i: int| 0 <= i < seen.batches().len() ==> #[trigger] seen.batches()[i].len() <= BATCH_CAP,
{
}

} // verus!
