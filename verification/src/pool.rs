//! The worker pool: the ordered set of known workers, their identity and
//! runtime state, and the atomic-style mutations the dispatcher and the
//! health monitor apply to it.

use vstd::prelude::*;
use crate::worker::{Worker, distinct_entries, entry_views, spec_insert_entry};
use crate::monitor::spec_probe_step;

verus! {

/// Failures of administrative pool mutations, surfaced to whoever issued
/// the mutation, never to request dispatch.
#[derive(Clone, Copy, Debug, PartialEq, Eq, Structural)]
pub enum PoolError {
    /// `add` refused a url that a live worker already carries.
    DuplicateWorker,
    /// `remove` (or another mutation by id) named no live worker.
    NotFound,
}

/// The live worker pool. `workers` is kept in insertion order; `next_id` is
/// the id the next added worker will get, strictly above every id in use.
pub struct WorkerPool {
    pub workers: Vec<Worker>,
    pub next_id: u64,
}

/// A worker counts as a pool member only while not marked removed; a removed
/// worker merely drains its in-flight requests.
pub open spec fn is_live(w: Worker) -> bool {
    !w.removed
}

/// No two workers share an id.
pub open spec fn distinct_ids(ws: Seq<Worker>) -> bool {
    forall|i: int, j: int| 0 <= i < j < ws.len() ==> ws[i].id != ws[j].id
}

/// Some worker (live or draining) carries this id.
pub open spec fn has_id(ws: Seq<Worker>, id: u64) -> bool {
    exists|i: int| 0 <= i < ws.len() && ws[i].id == id
}

/// Some live worker carries this id.
pub open spec fn has_live_id(ws: Seq<Worker>, id: u64) -> bool {
    exists|i: int| 0 <= i < ws.len() && is_live(ws[i]) && ws[i].id == id
}

/// Some live worker carries this url.
pub open spec fn has_live_url(ws: Seq<Worker>, url: Seq<char>) -> bool {
    exists|i: int| 0 <= i < ws.len() && is_live(ws[i]) && ws[i].url@ == url
}

/// Position of the first live worker, in insertion order, from position `k` on.
pub open spec fn first_live_from(ws: Seq<Worker>, k: int) -> Option<int>
    decreases ws.len() - k,
{
    if k < 0 || k >= ws.len() {
        None
    } else if is_live(ws[k]) {
        Some(k)
    } else {
        first_live_from(ws, k + 1)
    }
}

/// Position of the first live worker in insertion order.
pub open spec fn first_live(ws: Seq<Worker>) -> Option<int> {
    first_live_from(ws, 0)
}

/// `first_live_from` finds a live position iff one exists at or after `k`.
pub proof fn lemma_first_live_from(ws: Seq<Worker>, k: int)
    requires
        0 <= k <= ws.len(),
    ensures
        match first_live_from(ws, k) {
            Some(i) => k <= i < ws.len() && is_live(ws[i]) && forall|j: int|
                k <= j < i ==> !is_live(ws[j]),
            None => forall|j: int| k <= j < ws.len() ==> !is_live(ws[j]),
        },
    decreases ws.len() - k,
{
    if k < ws.len() && !is_live(ws[k]) {
        lemma_first_live_from(ws, k + 1);
    }
}

/// Position, from `k` on, of the first live worker carrying `id`.
pub open spec fn live_index_from(ws: Seq<Worker>, id: u64, k: int) -> Option<int>
    decreases ws.len() - k,
{
    if k < 0 || k >= ws.len() {
        None
    } else if is_live(ws[k]) && ws[k].id == id {
        Some(k)
    } else {
        live_index_from(ws, id, k + 1)
    }
}

/// Position of the live worker carrying `id`.
pub open spec fn live_index_of(ws: Seq<Worker>, id: u64) -> Option<int> {
    live_index_from(ws, id, 0)
}

/// Position, from `k` on, of the first worker carrying `id`, removed ones
/// included.
pub open spec fn index_from(ws: Seq<Worker>, id: u64, k: int) -> Option<int>
    decreases ws.len() - k,
{
    if k < 0 || k >= ws.len() {
        None
    } else if ws[k].id == id {
        Some(k)
    } else {
        index_from(ws, id, k + 1)
    }
}

/// Position of the worker carrying `id`, removed ones included.
pub open spec fn index_of_id(ws: Seq<Worker>, id: u64) -> Option<int> {
    index_from(ws, id, 0)
}

/// `live_index_from` finds a live worker with the id iff one exists from `k` on.
pub proof fn lemma_live_index_from(ws: Seq<Worker>, id: u64, k: int)
    requires
        0 <= k <= ws.len(),
    ensures
        match live_index_from(ws, id, k) {
            Some(i) => k <= i < ws.len() && is_live(ws[i]) && ws[i].id == id,
            None => forall|j: int| k <= j < ws.len() ==> !(is_live(#[trigger] ws[j]) && ws[j].id == id),
        },
    decreases ws.len() - k,
{
    if k < ws.len() && !(is_live(ws[k]) && ws[k].id == id) {
        lemma_live_index_from(ws, id, k + 1);
    }
}

/// `index_from` finds a worker with the id iff one exists from `k` on.
pub proof fn lemma_index_from(ws: Seq<Worker>, id: u64, k: int)
    requires
        0 <= k <= ws.len(),
    ensures
        match index_from(ws, id, k) {
            Some(i) => k <= i < ws.len() && ws[i].id == id,
            None => forall|j: int| k <= j < ws.len() ==> (#[trigger] ws[j]).id != id,
        },
    decreases ws.len() - k,
{
    if k < ws.len() && ws[k].id != id {
        lemma_index_from(ws, id, k + 1);
    }
}

/// A read-consistent copy of one live worker's externally relevant state,
/// as `snapshot` hands it out.
pub struct WorkerInfo {
    pub id: u64,
    pub url: String,
    pub healthy: bool,
    pub inflight: u64,
}

/// The snapshot a pool yields: one record per live worker, in insertion
/// order.
pub open spec fn live_infos(ws: Seq<Worker>) -> Seq<WorkerInfo>
    decreases ws.len(),
{
    if ws.len() == 0 {
        Seq::empty()
    } else {
        let front = live_infos(ws.drop_last());
        if is_live(ws.last()) {
            front.push(
                WorkerInfo {
                    id: ws.last().id,
                    url: ws.last().url,
                    healthy: ws.last().healthy,
                    inflight: ws.last().inflight,
                },
            )
        } else {
            front
        }
    }
}

/// With distinct ids, a live worker is the one `live_index_of` finds.
pub proof fn lemma_live_index_unique(ws: Seq<Worker>, i: int)
    requires
        distinct_ids(ws),
        0 <= i < ws.len(),
        is_live(ws[i]),
    ensures
        live_index_of(ws, ws[i].id) == Some(i),
{
    lemma_live_index_from(ws, ws[i].id, 0);
    match live_index_of(ws, ws[i].id) {
        Some(k) => {
            if k != i {
                assert(ws[k].id != ws[i].id);
            }
        },
        None => {
            assert(!(is_live(ws[i]) && ws[i].id == ws[i].id));
        },
    }
}

/// With distinct ids, any worker is the one `index_of_id` finds.
pub proof fn lemma_index_unique(ws: Seq<Worker>, i: int)
    requires
        distinct_ids(ws),
        0 <= i < ws.len(),
    ensures
        index_of_id(ws, ws[i].id) == Some(i),
{
    lemma_index_from(ws, ws[i].id, 0);
    match index_of_id(ws, ws[i].id) {
        Some(k) => {
            if k != i {
                assert(ws[k].id != ws[i].id);
            }
        },
        None => {
            assert(ws[i].id != ws[i].id);
        },
    }
}

impl WorkerPool {
    /// Structural invariant: ids unique and below `next_id`, live urls
    /// unique, removed workers still draining, affinity entries duplicate-free.
    pub open spec fn wf(self) -> bool {
        &&& distinct_ids(self.workers@)
        &&& forall|i: int, j: int|
            0 <= i < j < self.workers@.len() && is_live(self.workers@[i]) && is_live(
                self.workers@[j],
            ) ==> self.workers@[i].url@ != self.workers@[j].url@
        &&& forall|i: int|
            0 <= i < self.workers@.len() ==> #[trigger] self.workers@[i].removed ==> self.workers@[i].inflight
                >= 1
        &&& forall|i: int|
            0 <= i < self.workers@.len() ==> #[trigger] self.workers@[i].id < self.next_id
        &&& forall|i: int|
            0 <= i < self.workers@.len() ==> distinct_entries(
                entry_views(#[trigger] self.workers@[i].entries@),
            )
    }

    /// An empty pool.
    pub fn new() -> (p: WorkerPool)
        ensures
            p.wf(),
            p.workers@.len() == 0,
            p.next_id == 0,
    {
        WorkerPool { workers: Vec::new(), next_id: 0 }
    }

    /// Position of the worker carrying `id`, removed ones included.
    #[verifier::loop_isolation(false)]
    fn find_index(&self, id: u64) -> (r: Option<usize>)
        ensures
            match index_of_id(self.workers@, id) {
                Some(i) => r == Some(i as usize),
                None => r is None,
            },
    {
        let mut k: usize = 0;
        while k < self.workers.len()
            invariant
                k <= self.workers@.len(),
                index_of_id(self.workers@, id) == index_from(self.workers@, id, k as int),
            decreases self.workers@.len() - k,
        {
            if self.workers[k].id == id {
                return Some(k);
            }
            k = k + 1;
        }
        None
    }

    /// Position of the live worker carrying `id`.
    #[verifier::loop_isolation(false)]
    fn find_live_index(&self, id: u64) -> (r: Option<usize>)
        ensures
            match live_index_of(self.workers@, id) {
                Some(i) => r == Some(i as usize),
                None => r is None,
            },
    {
        let mut k: usize = 0;
        while k < self.workers.len()
            invariant
                k <= self.workers@.len(),
                live_index_of(self.workers@, id) == live_index_from(self.workers@, id, k as int),
            decreases self.workers@.len() - k,
        {
            if !self.workers[k].removed && self.workers[k].id == id {
                return Some(k);
            }
            k = k + 1;
        }
        None
    }

    /// Register a new worker: healthy, idle, with an empty affinity index.
    /// A url that a live worker already carries is rejected as a duplicate.
    #[verifier::loop_isolation(false)]
    pub fn add(&mut self, url: String) -> (r: Result<u64, PoolError>)
        requires
            old(self).wf(),
            old(self).next_id < u64::MAX,
        ensures
            final(self).wf(),
            has_live_url(old(self).workers@, url@) ==> r == Err::<u64, PoolError>(
                PoolError::DuplicateWorker,
            ) && *final(self) == *old(self),
            !has_live_url(old(self).workers@, url@) ==> {
                &&& r == Ok::<u64, PoolError>(old(self).next_id)
                &&& final(self).next_id == old(self).next_id + 1
                &&& final(self).workers@.len() == old(self).workers@.len() + 1
                &&& (forall|i: int|
                    0 <= i < old(self).workers@.len() ==> final(self).workers@[i] == old(
                        self,
                    ).workers@[i])
                &&& final(self).workers@.last().id == old(self).next_id
                &&& final(self).workers@.last().url@ == url@
                &&& final(self).workers@.last().healthy
                &&& !final(self).workers@.last().removed
                &&& final(self).workers@.last().inflight == 0
                &&& final(self).workers@.last().fail_streak == 0
                &&& final(self).workers@.last().ok_streak == 0
                &&& final(self).workers@.last().entries@.len() == 0
            },
    {
        let mut k: usize = 0;
        while k < self.workers.len()
            invariant
                k <= self.workers@.len(),
                *self == *old(self),
                forall|j: int|
                    0 <= j < k ==> !(is_live(self.workers@[j]) && self.workers@[j].url@ == url@),
            decreases self.workers@.len() - k,
        {
            if !self.workers[k].removed && self.workers[k].url == url {
                return Err(PoolError::DuplicateWorker);
            }
            k = k + 1;
        }
        let id = self.next_id;
        let w = Worker {
            id,
            url,
            healthy: true,
            removed: false,
            inflight: 0,
            fail_streak: 0,
            ok_streak: 0,
            entries: Vec::new(),
        };
        self.workers.push(w);
        self.next_id = id + 1;
        Ok(id)
    }

    /// Drop the live worker carrying `id` from the pool. While dispatches
    /// still reference it (a nonzero in-flight count) the record only gets
    /// marked removed and drains; it is freed once the count reaches zero.
    /// Removing an id no live worker carries reports `NotFound`.
    pub fn remove(&mut self, id: u64) -> (r: Result<(), PoolError>)
        requires
            old(self).wf(),
        ensures
            final(self).wf(),
            final(self).next_id == old(self).next_id,
            match live_index_of(old(self).workers@, id) {
                None => r == Err::<(), PoolError>(PoolError::NotFound) && *final(self) == *old(
                    self,
                ),
                Some(i) => r == Ok::<(), PoolError>(()) && (if old(self).workers@[i].inflight
                    == 0 {
                    final(self).workers@ == old(self).workers@.remove(i)
                } else {
                    final(self).workers@ == old(self).workers@.update(
                        i,
                        Worker { removed: true, ..old(self).workers@[i] },
                    )
                }),
            },
    {
        proof {
            broadcast use vstd::std_specs::vec::axiom_spec_len;

            assert(old(self).workers@.len() == old(self).workers.len());
            lemma_live_index_from(old(self).workers@, id, 0);
        }
        let found = self.find_live_index(id);
        match found {
            None => Err(PoolError::NotFound),
            Some(i) => {
                if self.workers[i].inflight == 0 {
                    let _w = self.workers.remove(i);
                    proof {
                        lemma_remove_keeps_wf(*old(self), *self, i as int);
                    }
                    Ok(())
                } else {
                    self.workers[i].removed = true;
                    Ok(())
                }
            },
        }
    }

    /// First worker in insertion order, health disregarded: the representative
    /// any pass-through informational endpoint may ask. `None` iff the pool
    /// holds no live worker.
    pub fn get_first(&self) -> (r: Option<String>)
        ensures
            r.is_some() <==> exists|i: int|
                0 <= i < self.workers@.len() && is_live(#[trigger] self.workers@[i]),
            match first_live(self.workers@) {
                Some(i) => r.is_some() && r->Some_0@ == self.workers@[i].url@,
                None => r.is_none(),
            },
    {
        proof {
            lemma_first_live_from(self.workers@, 0);
        }
        let mut k: usize = 0;
        while k < self.workers.len()
            invariant
                k <= self.workers@.len(),
                forall|j: int| 0 <= j < k ==> !is_live(self.workers@[j]),
                first_live(self.workers@) == first_live_from(self.workers@, k as int),
            decreases self.workers@.len() - k,
        {
            if !self.workers[k].removed {
                return Some(self.workers[k].url.clone());
            }
            k = k + 1;
        }
        None
    }

    /// Set the health flag of the live worker carrying `id`; reports whether
    /// such a worker exists. Only the flag changes.
    pub fn mark_health(&mut self, id: u64, healthy: bool) -> (r: bool)
        requires
            old(self).wf(),
        ensures
            final(self).wf(),
            final(self).next_id == old(self).next_id,
            r == (live_index_of(old(self).workers@, id) is Some),
            match live_index_of(old(self).workers@, id) {
                None => *final(self) == *old(self),
                Some(i) => final(self).workers@ == old(self).workers@.update(
                    i,
                    Worker { healthy, ..old(self).workers@[i] },
                ),
            },
    {
        proof {
            broadcast use vstd::std_specs::vec::axiom_spec_len;

            assert(old(self).workers@.len() == old(self).workers.len());
            lemma_live_index_from(old(self).workers@, id, 0);
        }
        let found = self.find_live_index(id);
        match found {
            None => false,
            Some(i) => {
                self.workers[i].healthy = healthy;
                true
            },
        }
    }

    /// Count one more in-flight request on the live worker carrying `id`;
    /// reports whether such a worker exists. The count saturates at the
    /// machine limit.
    pub fn incr_inflight(&mut self, id: u64) -> (r: bool)
        requires
            old(self).wf(),
        ensures
            final(self).wf(),
            final(self).next_id == old(self).next_id,
            r == (live_index_of(old(self).workers@, id) is Some),
            match live_index_of(old(self).workers@, id) {
                None => *final(self) == *old(self),
                Some(i) => final(self).workers@ == old(self).workers@.update(
                    i,
                    Worker {
                        inflight: if old(self).workers@[i].inflight < u64::MAX {
                            (old(self).workers@[i].inflight + 1) as u64
                        } else {
                            u64::MAX
                        },
                        ..old(self).workers@[i]
                    },
                ),
            },
    {
        proof {
            broadcast use vstd::std_specs::vec::axiom_spec_len;

            assert(old(self).workers@.len() == old(self).workers.len());
            lemma_live_index_from(old(self).workers@, id, 0);
        }
        let found = self.find_live_index(id);
        match found {
            None => false,
            Some(i) => {
                if self.workers[i].inflight < u64::MAX {
                    self.workers[i].inflight = self.workers[i].inflight + 1;
                }
                true
            },
        }
    }

    /// Record a successfully served prompt in the affinity index of the
    /// live worker carrying `id`; reports whether such a worker exists.
    /// Only that worker's index changes.
    pub fn note_prompt(&mut self, id: u64, prompt: &Vec<u8>, cap: usize) -> (r: bool)
        requires
            old(self).wf(),
        ensures
            final(self).wf(),
            final(self).next_id == old(self).next_id,
            r == (live_index_of(old(self).workers@, id) is Some),
            match live_index_of(old(self).workers@, id) {
                None => *final(self) == *old(self),
                Some(i) => {
                    &&& final(self).workers@.len() == old(self).workers@.len()
                    &&& (forall|k: int|
                        0 <= k < old(self).workers@.len() && k != i
                            ==> final(self).workers@[k] == old(self).workers@[k])
                    &&& final(self).workers@[i].id == old(self).workers@[i].id
                    &&& final(self).workers@[i].url == old(self).workers@[i].url
                    &&& final(self).workers@[i].healthy == old(self).workers@[i].healthy
                    &&& final(self).workers@[i].removed == old(self).workers@[i].removed
                    &&& final(self).workers@[i].inflight == old(self).workers@[i].inflight
                    &&& final(self).workers@[i].fail_streak == old(self).workers@[i].fail_streak
                    &&& final(self).workers@[i].ok_streak == old(self).workers@[i].ok_streak
                    &&& entry_views(final(self).workers@[i].entries@) == spec_insert_entry(
                        entry_views(old(self).workers@[i].entries@),
                        prompt@,
                        cap as nat,
                    )
                    &&& (old(self).workers@[i].entries@.len() <= cap
                        ==> final(self).workers@[i].entries@.len() <= cap)
                },
            },
    {
        proof {
            broadcast use vstd::std_specs::vec::axiom_spec_len;

            assert(old(self).workers@.len() == old(self).workers.len());
            lemma_live_index_from(old(self).workers@, id, 0);
        }
        let found = self.find_live_index(id);
        match found {
            None => false,
            Some(i) => {
                self.workers[i].record_prompt(prompt, cap);
                true
            },
        }
    }

    /// The url of the live worker carrying `id`, for forwarding.
    pub fn url_of(&self, id: u64) -> (r: String)
        requires
            live_index_of(self.workers@, id) is Some,
        ensures
            r@ == self.workers@[live_index_of(self.workers@, id)->Some_0].url@,
    {
        proof {
            broadcast use vstd::std_specs::vec::axiom_spec_len;

            assert(self.workers@.len() == self.workers.len());
            lemma_live_index_from(self.workers@, id, 0);
        }
        let found = self.find_live_index(id);
        match found {
            Some(i) => self.workers[i].url.clone(),
            None => {
                proof {
                    assert(false);
                }
                String::new()
            },
        }
    }

    /// A read-consistent snapshot of the live workers, in insertion order,
    /// for selection diagnostics and the health monitor's probe round.
    #[verifier::loop_isolation(false)]
    pub fn snapshot(&self) -> (r: Vec<WorkerInfo>)
        ensures
            r@ == live_infos(self.workers@),
    {
        let mut r: Vec<WorkerInfo> = Vec::new();
        let mut k: usize = 0;
        while k < self.workers.len()
            invariant
                k <= self.workers@.len(),
                r@ == live_infos(self.workers@.take(k as int)),
            decreases self.workers@.len() - k,
        {
            proof {
                assert(self.workers@.take(k + 1).drop_last() =~= self.workers@.take(k as int));
                assert(self.workers@.take(k + 1).last() == self.workers@[k as int]);
            }
            let w = &self.workers[k];
            if !w.removed {
                r.push(
                    WorkerInfo {
                        id: w.id,
                        url: w.url.clone(),
                        healthy: w.healthy,
                        inflight: w.inflight,
                    },
                );
            }
            k = k + 1;
        }
        proof {
            assert(self.workers@.take(self.workers@.len() as int) =~= self.workers@);
        }
        r
    }

    /// Fold one health-probe outcome into the live worker carrying `id`,
    /// with the hysteresis of `spec_probe_step`; reports whether such a
    /// worker exists. Only health and streaks change.
    pub fn record_probe(
        &mut self,
        id: u64,
        success: bool,
        fail_threshold: u64,
        success_threshold: u64,
    ) -> (r: bool)
        requires
            old(self).wf(),
        ensures
            final(self).wf(),
            final(self).next_id == old(self).next_id,
            r == (live_index_of(old(self).workers@, id) is Some),
            match live_index_of(old(self).workers@, id) {
                None => *final(self) == *old(self),
                Some(i) => final(self).workers@ == old(self).workers@.update(
                    i,
                    Worker {
                        healthy: spec_probe_step(
                            old(self).workers@[i].healthy,
                            old(self).workers@[i].fail_streak,
                            old(self).workers@[i].ok_streak,
                            success,
                            fail_threshold,
                            success_threshold,
                        ).0,
                        fail_streak: spec_probe_step(
                            old(self).workers@[i].healthy,
                            old(self).workers@[i].fail_streak,
                            old(self).workers@[i].ok_streak,
                            success,
                            fail_threshold,
                            success_threshold,
                        ).1,
                        ok_streak: spec_probe_step(
                            old(self).workers@[i].healthy,
                            old(self).workers@[i].fail_streak,
                            old(self).workers@[i].ok_streak,
                            success,
                            fail_threshold,
                            success_threshold,
                        ).2,
                        ..old(self).workers@[i]
                    },
                ),
            },
    {
        proof {
            broadcast use vstd::std_specs::vec::axiom_spec_len;

            assert(old(self).workers@.len() == old(self).workers.len());
            lemma_live_index_from(old(self).workers@, id, 0);
        }
        let found = self.find_live_index(id);
        match found {
            None => false,
            Some(i) => {
                let healthy = self.workers[i].healthy;
                let fs = self.workers[i].fail_streak;
                let os = self.workers[i].ok_streak;
                if success {
                    let os2 = if os < u64::MAX {
                        os + 1
                    } else {
                        u64::MAX
                    };
                    if !healthy && os2 >= success_threshold {
                        self.workers[i].healthy = true;
                        self.workers[i].fail_streak = 0;
                        self.workers[i].ok_streak = 0;
                    } else {
                        self.workers[i].fail_streak = 0;
                        self.workers[i].ok_streak = os2;
                    }
                } else {
                    let fs2 = if fs < u64::MAX {
                        fs + 1
                    } else {
                        u64::MAX
                    };
                    if healthy && fs2 >= fail_threshold {
                        self.workers[i].healthy = false;
                        self.workers[i].fail_streak = 0;
                        self.workers[i].ok_streak = 0;
                    } else {
                        self.workers[i].fail_streak = fs2;
                        self.workers[i].ok_streak = 0;
                    }
                }
                proof {
                    let ws = old(self).workers@;
                    let j = i as int;
                    let stepped = spec_probe_step(
                        ws[j].healthy,
                        ws[j].fail_streak,
                        ws[j].ok_streak,
                        success,
                        fail_threshold,
                        success_threshold,
                    );
                    assert(self.workers@ =~= ws.update(
                        j,
                        Worker {
                            healthy: stepped.0,
                            fail_streak: stepped.1,
                            ok_streak: stepped.2,
                            ..ws[j]
                        },
                    ));
                }
                true
            },
        }
    }

    /// Release one in-flight request on the worker carrying `id`, removed
    /// workers included: a dispatch that outlives its worker's removal still
    /// completes. A worker marked removed is freed once it drains to zero.
    /// Idle or unknown ids are left alone (`r` is false), so the count never
    /// underflows.
    pub fn decr_inflight(&mut self, id: u64) -> (r: bool)
        requires
            old(self).wf(),
        ensures
            final(self).wf(),
            final(self).next_id == old(self).next_id,
            r == (match index_of_id(old(self).workers@, id) {
                Some(i) => old(self).workers@[i].inflight >= 1,
                None => false,
            }),
            match index_of_id(old(self).workers@, id) {
                None => *final(self) == *old(self),
                Some(i) => {
                    if old(self).workers@[i].inflight == 0 {
                        *final(self) == *old(self)
                    } else if old(self).workers@[i].removed && old(self).workers@[i].inflight
                        == 1 {
                        final(self).workers@ == old(self).workers@.remove(i)
                    } else {
                        final(self).workers@ == old(self).workers@.update(
                            i,
                            Worker {
                                inflight: (old(self).workers@[i].inflight - 1) as u64,
                                ..old(self).workers@[i]
                            },
                        )
                    }
                },
            },
    {
        proof {
            broadcast use vstd::std_specs::vec::axiom_spec_len;

            assert(old(self).workers@.len() == old(self).workers.len());
            lemma_index_from(old(self).workers@, id, 0);
        }
        let found = self.find_index(id);
        match found {
            None => false,
            Some(i) => {
                if self.workers[i].inflight == 0 {
                    return false;
                }
                if self.workers[i].removed && self.workers[i].inflight == 1 {
                    let _w = self.workers.remove(i);
                    proof {
                        lemma_remove_keeps_wf(*old(self), *self, i as int);
                    }
                } else {
                    self.workers[i].inflight = self.workers[i].inflight - 1;
                }
                true
            },
        }
    }
}

/// Dropping one position preserves the pool invariant.
proof fn lemma_remove_keeps_wf(pre: WorkerPool, post: WorkerPool, i: int)
    requires
        pre.wf(),
        0 <= i < pre.workers@.len(),
        post.workers@ == pre.workers@.remove(i),
        post.next_id == pre.next_id,
    ensures
        post.wf(),
{
    let ws = pre.workers@;
    let nw = post.workers@;
    assert forall|a: int| 0 <= a < nw.len() implies nw[a] == (if a < i {
        ws[a]
    } else {
        ws[a + 1]
    }) by {
        assert(nw == ws.subrange(0, i) + ws.subrange(i + 1, ws.len() as int));
    }
}

} // verus!
