//! The router: the worker pool under one selection policy, with the live
//! counter and generator state the policies need.

use vstd::prelude::*;
use crate::pool::{
    lemma_live_index_from, live_index_of, PoolError, WorkerPool, first_live, has_live_url,
    is_live,
};
use crate::policy::{
    eligible_idxs, lemma_cache_champion, lemma_eligible_idxs, lemma_rr_complete, rng_step,
    select_cache, select_p2c, select_random, select_rr, spec_eligible,
    spec_policy_counter_after, spec_policy_rng_after, spec_policy_select, PolicyChoice,
    PolicyConfig,
};
use crate::worker::Worker;
use crate::monitor::spec_probe_step;

verus! {

/// The router owns the pool and the mutable policy state: the round-robin
/// counter and the generator behind the randomized policies.
pub struct Router {
    pub pool: WorkerPool,
    pub config: PolicyConfig,
    pub rr_counter: u64,
    pub rng: u64,
}

/// The url strings of a url list.
pub open spec fn url_views(urls: Seq<String>) -> Seq<Seq<char>> {
    urls.map_values(|u: String| u@)
}

/// The url list with every repeated url dropped after its first occurrence.
pub open spec fn dedup_first(vs: Seq<Seq<char>>) -> Seq<Seq<char>>
    decreases vs.len(),
{
    if vs.len() == 0 {
        Seq::empty()
    } else {
        let front = dedup_first(vs.drop_last());
        if front.contains(vs.last()) {
            front
        } else {
            front.push(vs.last())
        }
    }
}

impl Router {
    /// The affinity-index node budget: the configured cap under the
    /// cache-aware policy, zero (index disabled) under every other policy.
    pub open spec fn cache_cap(self) -> nat {
        match self.config.policy {
            PolicyChoice::CacheAware { max_tree_nodes, .. } => max_tree_nodes as nat,
            _ => 0,
        }
    }

    /// Structural invariant: a well-formed pool, a positive attempt budget,
    /// and every affinity index within the node budget.
    pub open spec fn wf(self) -> bool {
        &&& self.pool.wf()
        &&& self.config.retry_attempts >= 1
        &&& forall|i: int|
            0 <= i < self.pool.workers@.len() ==> (#[trigger] self.pool.workers@[i]).entries@.len()
                <= self.cache_cap()
    }

    /// Build a router over the given worker urls. Every distinct url becomes
    /// one healthy idle worker, in list order, with ids counted from zero;
    /// repeated urls are dropped. The dispatch loop issues at least one
    /// attempt, so the configured budget must be positive.
    pub fn new(worker_urls: Vec<String>, policy_config: PolicyConfig) -> (r: Router)
        requires
            policy_config.retry_attempts >= 1,
            worker_urls@.len() < u64::MAX,
        ensures
            r.wf(),
            r.config == policy_config,
            r.rng == policy_config.seed,
            r.rr_counter == (match policy_config.policy {
                PolicyChoice::RoundRobin { start } => start,
                _ => 0u64,
            }),
            r.pool.workers@.len() == dedup_first(url_views(worker_urls@)).len(),
            forall|i: int|
                0 <= i < r.pool.workers@.len() ==> {
                    &&& (#[trigger] r.pool.workers@[i]).id == i
                    &&& r.pool.workers@[i].url@ == dedup_first(url_views(worker_urls@))[i]
                    &&& r.pool.workers@[i].healthy
                    &&& !r.pool.workers@[i].removed
                    &&& r.pool.workers@[i].inflight == 0
                    &&& r.pool.workers@[i].fail_streak == 0
                    &&& r.pool.workers@[i].ok_streak == 0
                    &&& r.pool.workers@[i].entries@.len() == 0
                },
    {
        let mut pool = WorkerPool::new();
        let n = worker_urls.len();
        let mut i: usize = 0;
        while i < n
            invariant
                i <= n,
                n == worker_urls@.len(),
                n < u64::MAX,
                pool.wf(),
                pool.next_id == pool.workers@.len(),
                pool.workers@.len() <= i,
                pool.workers@.len() == dedup_first(url_views(worker_urls@.take(i as int))).len(),
                forall|k: int|
                    0 <= k < pool.workers@.len() ==> {
                        &&& (#[trigger] pool.workers@[k]).id == k
                        &&& pool.workers@[k].url@ == dedup_first(
                            url_views(worker_urls@.take(i as int)),
                        )[k]
                        &&& pool.workers@[k].healthy
                        &&& !pool.workers@[k].removed
                        &&& pool.workers@[k].inflight == 0
                        &&& pool.workers@[k].fail_streak == 0
                        &&& pool.workers@[k].ok_streak == 0
                        &&& pool.workers@[k].entries@.len() == 0
                    },
            decreases n - i,
        {
            let ghost pre = pool.workers@;
            let ghost front = dedup_first(url_views(worker_urls@.take(i as int)));
            let u = worker_urls[i].clone();
            proof {
                assert(url_views(worker_urls@.take(i + 1)).drop_last() =~= url_views(
                    worker_urls@.take(i as int),
                ));
                assert(url_views(worker_urls@.take(i + 1)).last() == worker_urls@[i as int]@);
                assert(has_live_url(pre, u@) <==> front.contains(u@)) by {
                    if has_live_url(pre, u@) {
                        let k = choose|k: int|
                            0 <= k < pre.len() && is_live(pre[k]) && pre[k].url@ == u@;
                        assert(front[k] == u@);
                    }
                    if front.contains(u@) {
                        let k = choose|k: int| 0 <= k < front.len() && front[k] == u@;
                        assert(pre[k].url@ == u@ && is_live(pre[k]));
                    }
                }
            }
            let _added = pool.add(u);
            i = i + 1;
        }
        proof {
            assert(worker_urls@.take(n as int) =~= worker_urls@);
        }
        Router {
            pool,
            config: policy_config,
            rr_counter: match policy_config.policy {
                PolicyChoice::RoundRobin { start } => start,
                _ => 0,
            },
            rng: policy_config.seed,
        }
    }

    /// The url of the first worker in insertion order, health disregarded;
    /// `None` iff the pool is empty. Pass-through informational endpoints
    /// forward to this representative once, without retry.
    pub fn get_first(&self) -> (r: Option<String>)
        ensures
            r.is_some() <==> exists|i: int|
                0 <= i < self.pool.workers@.len() && is_live(#[trigger] self.pool.workers@[i]),
            match first_live(self.pool.workers@) {
                Some(i) => r.is_some() && r->Some_0@ == self.pool.workers@[i].url@,
                None => r.is_none(),
            },
    {
        self.pool.get_first()
    }

    /// Which position `select` returns for the current policy state.
    pub open spec fn spec_selected_index(self, p: Seq<u8>, ex: Seq<u64>) -> Option<usize> {
        spec_policy_select(self.pool.workers@, self.config, self.rr_counter, self.rng, p, ex)
    }

    /// The generator state `select` leaves behind: one step for the policies
    /// that draw once, two for the pair-sampling ones.
    pub open spec fn spec_rng_after(self) -> u64 {
        spec_policy_rng_after(self.config, self.rng)
    }

    /// The counter `select` leaves behind: round-robin advances by one on
    /// every call, wrapping at the machine limit; other policies keep it.
    pub open spec fn spec_counter_after(self) -> u64 {
        spec_policy_counter_after(self.config, self.rr_counter)
    }

    /// Select an eligible worker for a request under the configured policy.
    ///
    /// Returns the chosen worker's id, and `None` exactly when no worker is
    /// live, healthy and outside `excluded`. The pool itself is untouched;
    /// only the counter and generator state advance, as the companion spec
    /// functions state.
    pub fn select(&mut self, prompt: &Vec<u8>, excluded: &Vec<u64>) -> (r: Option<u64>)
        requires
            old(self).wf(),
        ensures
            final(self).wf(),
            final(self).pool == old(self).pool,
            final(self).config == old(self).config,
            final(self).rng == old(self).spec_rng_after(),
            final(self).rr_counter == old(self).spec_counter_after(),
            (r is Some) <==> exists|i: int|
                0 <= i < old(self).pool.workers@.len() && spec_eligible(
                    #[trigger] old(self).pool.workers@[i],
                    excluded@,
                ),
            match old(self).spec_selected_index(prompt@, excluded@) {
                Some(i) => {
                    &&& i < old(self).pool.workers@.len()
                    &&& r == Some(old(self).pool.workers@[i as int].id)
                    &&& spec_eligible(old(self).pool.workers@[i as int], excluded@)
                },
                None => r is None,
            },
    {
        proof {
            broadcast use vstd::std_specs::vec::axiom_spec_len;

            assert(self.pool.workers@.len() == self.pool.workers.len());
            lemma_eligible_idxs(self.pool.workers@, excluded@);
        }
        let ghost ws = self.pool.workers@;
        let ghost el = eligible_idxs(ws, excluded@);
        let d1 = rng_step(&mut self.rng);
        let idx_opt: Option<usize> = match self.config.policy {
            PolicyChoice::Random => select_random(&self.pool.workers, excluded, d1),
            PolicyChoice::RoundRobin { .. } => {
                let c = self.rr_counter;
                self.rr_counter = if c == u64::MAX {
                    0
                } else {
                    c + 1
                };
                proof {
                    lemma_rr_complete(ws, excluded@, c);
                }
                select_rr(&self.pool.workers, excluded, c)
            },
            PolicyChoice::PowerOfTwo => {
                let d2 = rng_step(&mut self.rng);
                select_p2c(&self.pool.workers, excluded, d1, d2)
            },
            PolicyChoice::CacheAware { .. } => {
                let d2 = rng_step(&mut self.rng);
                proof {
                    if el.len() > 0 {
                        lemma_cache_champion(ws, el, prompt@);
                    }
                }
                select_cache(&self.pool.workers, excluded, prompt, d1, d2)
            },
        };
        match idx_opt {
            None => {
                proof {
                    assert forall|i: int|
                        0 <= i < ws.len() implies !spec_eligible(#[trigger] ws[i], excluded@) by {
                        if spec_eligible(ws[i], excluded@) {
                            assert(el.contains(i as usize));
                        }
                    }
                }
                None
            },
            Some(i) => Some(self.pool.workers[i].id),
        }
    }

    /// Register one more worker under the configured policy; see
    /// `WorkerPool::add` for the url-duplication rule.
    pub fn add_worker(&mut self, url: String) -> (r: Result<u64, PoolError>)
        requires
            old(self).wf(),
            old(self).pool.next_id < u64::MAX,
        ensures
            final(self).wf(),
            final(self).config == old(self).config,
            final(self).rr_counter == old(self).rr_counter,
            final(self).rng == old(self).rng,
            has_live_url(old(self).pool.workers@, url@) ==> r == Err::<u64, PoolError>(
                PoolError::DuplicateWorker,
            ) && *final(self) == *old(self),
            !has_live_url(old(self).pool.workers@, url@) ==> {
                &&& r == Ok::<u64, PoolError>(old(self).pool.next_id)
                &&& final(self).pool.workers@.len() == old(self).pool.workers@.len() + 1
                &&& (forall|i: int|
                    0 <= i < old(self).pool.workers@.len() ==> final(self).pool.workers@[i] == old(
                        self,
                    ).pool.workers@[i])
                &&& final(self).pool.workers@.last().id == old(self).pool.next_id
                &&& final(self).pool.workers@.last().url@ == url@
                &&& final(self).pool.workers@.last().healthy
                &&& !final(self).pool.workers@.last().removed
                &&& final(self).pool.workers@.last().inflight == 0
                &&& final(self).pool.workers@.last().entries@.len() == 0
            },
    {
        self.pool.add(url)
    }

    /// Fold one health-probe outcome into a worker under the configured
    /// hysteresis thresholds; reports whether a live worker carries the id.
    /// The health monitor loop feeds every probe round through this.
    pub fn record_probe(&mut self, id: u64, success: bool) -> (r: bool)
        requires
            old(self).wf(),
        ensures
            final(self).wf(),
            final(self).config == old(self).config,
            final(self).rr_counter == old(self).rr_counter,
            final(self).rng == old(self).rng,
            r == (live_index_of(old(self).pool.workers@, id) is Some),
            match live_index_of(old(self).pool.workers@, id) {
                None => *final(self) == *old(self),
                Some(i) => final(self).pool.workers@ == old(self).pool.workers@.update(
                    i,
                    Worker {
                        healthy: spec_probe_step(
                            old(self).pool.workers@[i].healthy,
                            old(self).pool.workers@[i].fail_streak,
                            old(self).pool.workers@[i].ok_streak,
                            success,
                            old(self).config.failure_threshold,
                            old(self).config.success_threshold,
                        ).0,
                        fail_streak: spec_probe_step(
                            old(self).pool.workers@[i].healthy,
                            old(self).pool.workers@[i].fail_streak,
                            old(self).pool.workers@[i].ok_streak,
                            success,
                            old(self).config.failure_threshold,
                            old(self).config.success_threshold,
                        ).1,
                        ok_streak: spec_probe_step(
                            old(self).pool.workers@[i].healthy,
                            old(self).pool.workers@[i].fail_streak,
                            old(self).pool.workers@[i].ok_streak,
                            success,
                            old(self).config.failure_threshold,
                            old(self).config.success_threshold,
                        ).2,
                        ..old(self).pool.workers@[i]
                    },
                ),
            },
    {
        let ft = self.config.failure_threshold;
        let st = self.config.success_threshold;
        let r = self.pool.record_probe(id, success, ft, st);
        proof {
            let ws = old(self).pool.workers@;
            lemma_live_index_from(ws, id, 0);
            match live_index_of(ws, id) {
                None => {},
                Some(i) => {
                    let stepped = spec_probe_step(
                        ws[i].healthy,
                        ws[i].fail_streak,
                        ws[i].ok_streak,
                        success,
                        ft,
                        st,
                    );
                    let wsu = ws.update(
                        i,
                        Worker {
                            healthy: stepped.0,
                            fail_streak: stepped.1,
                            ok_streak: stepped.2,
                            ..ws[i]
                        },
                    );
                    assert forall|k: int|
                        0 <= k < wsu.len() implies (#[trigger] wsu[k]).entries@.len()
                        <= self.cache_cap() by {
                        if k != i {
                            assert(wsu[k] == ws[k]);
                        }
                    }
                },
            }
        }
        r
    }

    /// Remove a worker from service; see `WorkerPool::remove` for the
    /// deferred-removal rule.
    pub fn remove_worker(&mut self, id: u64) -> (r: Result<(), PoolError>)
        requires
            old(self).wf(),
        ensures
            final(self).wf(),
            final(self).config == old(self).config,
            final(self).rr_counter == old(self).rr_counter,
            final(self).rng == old(self).rng,
            match live_index_of(old(self).pool.workers@, id) {
                None => r == Err::<(), PoolError>(PoolError::NotFound) && *final(self) == *old(
                    self,
                ),
                Some(i) => r == Ok::<(), PoolError>(()) && (if old(
                    self,
                ).pool.workers@[i].inflight == 0 {
                    final(self).pool.workers@ == old(self).pool.workers@.remove(i)
                } else {
                    final(self).pool.workers@ == old(self).pool.workers@.update(
                        i,
                        Worker { removed: true, ..old(self).pool.workers@[i] },
                    )
                }),
            },
    {
        let r = self.pool.remove(id);
        proof {
            let ws = old(self).pool.workers@;
            lemma_live_index_from(ws, id, 0);
            match live_index_of(ws, id) {
                None => {},
                Some(i) => {
                    if ws[i].inflight == 0 {
                        ws.remove_ensures(i);
                        assert forall|k: int|
                            0 <= k < self.pool.workers@.len() implies (
                            #[trigger] self.pool.workers@[k]).entries@.len()
                            <= self.cache_cap() by {
                            if k < i {
                                assert(ws.remove(i)[k] == ws[k]);
                            } else {
                                assert(ws.remove(i)[k] == ws[k + 1]);
                            }
                        }
                    } else {
                        let wsu = ws.update(i, Worker { removed: true, ..ws[i] });
                        assert forall|k: int|
                            0 <= k < wsu.len() implies (#[trigger] wsu[k]).entries@.len()
                            <= self.cache_cap() by {
                            if k != i {
                                assert(wsu[k] == ws[k]);
                            }
                        }
                    }
                },
            }
        }
        r
    }

    /// Set one worker's health flag directly; the health monitor's
    /// hysteresis sits on top of this primitive.
    pub fn mark_health(&mut self, id: u64, healthy: bool) -> (r: bool)
        requires
            old(self).wf(),
        ensures
            final(self).wf(),
            final(self).config == old(self).config,
            final(self).rr_counter == old(self).rr_counter,
            final(self).rng == old(self).rng,
            r == (live_index_of(old(self).pool.workers@, id) is Some),
            match live_index_of(old(self).pool.workers@, id) {
                None => *final(self) == *old(self),
                Some(i) => final(self).pool.workers@ == old(self).pool.workers@.update(
                    i,
                    Worker { healthy, ..old(self).pool.workers@[i] },
                ),
            },
    {
        let r = self.pool.mark_health(id, healthy);
        proof {
            let ws = old(self).pool.workers@;
            lemma_live_index_from(ws, id, 0);
            match live_index_of(ws, id) {
                None => {},
                Some(i) => {
                    let wsu = ws.update(i, Worker { healthy, ..ws[i] });
                    assert forall|k: int|
                        0 <= k < wsu.len() implies (#[trigger] wsu[k]).entries@.len()
                        <= self.cache_cap() by {
                        if k != i {
                            assert(wsu[k] == ws[k]);
                        }
                    }
                },
            }
        }
        r
    }
}

} // verus!
