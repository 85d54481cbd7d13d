//! One request's dispatch lifecycle: select a worker, hand the forward to
//! the caller, fold the outcome back in, retry elsewhere on failure within
//! the attempt budget. The caller (the HTTP layer) performs the forwards;
//! every decision lives here.

use vstd::prelude::*;
use crate::pool::{
    distinct_ids, index_of_id, is_live, lemma_index_from, lemma_index_unique,
    lemma_live_index_from, lemma_live_index_unique, live_index_of,
};
use crate::policy::{
    spec_eligible, spec_policy_counter_after, spec_policy_rng_after, spec_policy_select,
    PolicyChoice,
};
use crate::router::Router;
use crate::worker::{entry_views, spec_insert_entry, Worker};

verus! {

/// Which endpoint family a request came in on. The routed kinds carry the
/// path suffix a forward is sent to; pass-through requests go to the first
/// worker without retry and never enter the dispatch loop.
#[derive(Clone, Copy, Debug, PartialEq, Eq, Structural)]
pub enum RouteKind {
    Generate,
    ChatCompletions,
    Completions,
    Passthrough,
}

impl RouteKind {
    /// The path, under a worker's url, this kind of request is forwarded to.
    pub fn path_suffix(&self) -> (r: &'static str)
        ensures
            r@ == (match self {
                RouteKind::Generate => "generate"@,
                RouteKind::ChatCompletions => "v1/chat/completions"@,
                RouteKind::Completions => "v1/completions"@,
                RouteKind::Passthrough => ""@,
            }),
    {
        match self {
            RouteKind::Generate => "generate",
            RouteKind::ChatCompletions => "v1/chat/completions",
            RouteKind::Completions => "v1/completions",
            RouteKind::Passthrough => "",
        }
    }
}

/// Dispatch failures surfaced to the caller of the routed endpoints.
#[derive(Clone, Copy, Debug, PartialEq, Eq, Structural)]
pub enum RouterError {
    /// No live, healthy, non-excluded worker existed at selection time;
    /// fatal immediately, never retried.
    NoHealthyWorkers,
    /// The attempt budget ran out on transport failures or timeouts.
    WorkerUnreachable,
    /// The attempt budget ran out on worker-side server errors.
    WorkerServerError,
}

/// What one forward attempt came back with.
#[derive(Clone, Copy, Debug, PartialEq, Eq, Structural)]
pub enum ForwardOutcome {
    /// The worker answered with this HTTP status; the caller holds the body.
    Replied { status: u16 },
    /// Transport failure or timeout; no response exists.
    TransportError,
}

/// What the dispatcher asks of the caller next.
#[derive(Debug)]
pub enum DispatchStep {
    /// Forward the request body, unmodified, to this worker, and report the
    /// outcome through `dispatch_report`.
    Forward { worker_id: u64, url: String },
    /// Done: relay the last response received — this status and its body —
    /// to the client unmodified.
    Respond { status: u16 },
    /// Done: no response to relay; answer with a gateway error.
    Fail { error: RouterError },
}

/// The state of one request's retry loop.
#[derive(Debug)]
pub struct Dispatch {
    /// Which endpoint family the request came in on.
    pub route: RouteKind,
    /// The prompt bytes, kept for cache-aware routing.
    pub prompt: Vec<u8>,
    /// Workers that already failed this request; never selected again here.
    pub excluded: Vec<u64>,
    /// Forwards still allowed, counting the one in flight.
    pub attempts_left: u64,
    /// The worker whose in-flight count this dispatch currently holds.
    pub current: Option<u64>,
    /// A terminal step (`Respond` or `Fail`) has been produced.
    pub done: bool,
}

impl Dispatch {
    /// A live dispatch always has budget and a worker in flight; a finished
    /// one holds no in-flight count.
    pub open spec fn wf(self) -> bool {
        &&& (!self.done ==> self.attempts_left >= 1 && self.current is Some)
        &&& (self.done ==> self.current is None)
    }
}

/// A worker-side reply below 400 is relayed as success; 4xx is relayed
/// verbatim without retry; 5xx and transport failures are retried.
pub open spec fn outcome_failed(o: ForwardOutcome) -> bool {
    match o {
        ForwardOutcome::Replied { status } => status >= 500,
        ForwardOutcome::TransportError => true,
    }
}

/// The status of a reply (meaningful only for `Replied`).
pub open spec fn outcome_status(o: ForwardOutcome) -> u16 {
    match o {
        ForwardOutcome::Replied { status } => status,
        ForwardOutcome::TransportError => 0,
    }
}

/// Which gateway error an exhausted budget surfaces, after this outcome.
pub open spec fn fail_error(o: ForwardOutcome) -> RouterError {
    match o {
        ForwardOutcome::Replied { .. } => RouterError::WorkerServerError,
        ForwardOutcome::TransportError => RouterError::WorkerUnreachable,
    }
}

/// The pool after one dispatch releases its in-flight count on worker `id`:
/// the count drops by one; a drained worker that was marked removed is
/// freed; a missing or idle id changes nothing.
pub open spec fn spec_release(ws: Seq<Worker>, id: u64) -> Seq<Worker> {
    match index_of_id(ws, id) {
        None => ws,
        Some(j) => if ws[j].inflight == 0 {
            ws
        } else if ws[j].removed && ws[j].inflight == 1 {
            ws.remove(j)
        } else {
            ws.update(
                j,
                Worker { inflight: (ws[j].inflight - 1) as u64, ..ws[j] },
            )
        },
    }
}

/// The pool after a successful dispatch on worker `id`: the release above,
/// and, under the cache-aware policy, the prompt recorded in that worker's
/// affinity index. Everything but that worker's index is pinned exactly.
pub open spec fn spec_settled(
    pre: Seq<Worker>,
    post: Seq<Worker>,
    id: u64,
    p: Seq<u8>,
    cap: nat,
    cache_on: bool,
) -> bool {
    let ws1 = spec_release(pre, id);
    &&& post.len() == ws1.len()
    &&& (forall|k: int|
        0 <= k < ws1.len() ==> {
            &&& (#[trigger] post[k]).id == ws1[k].id
            &&& post[k].url == ws1[k].url
            &&& post[k].healthy == ws1[k].healthy
            &&& post[k].removed == ws1[k].removed
            &&& post[k].inflight == ws1[k].inflight
            &&& post[k].fail_streak == ws1[k].fail_streak
            &&& post[k].ok_streak == ws1[k].ok_streak
        })
    &&& (!cache_on ==> post == ws1)
    &&& (cache_on ==> match live_index_of(ws1, id) {
        None => post == ws1,
        Some(j) => {
            &&& entry_views(post[j].entries@) == spec_insert_entry(
                entry_views(ws1[j].entries@),
                p,
                cap,
            )
            &&& (forall|k: int| 0 <= k < ws1.len() && k != j ==> (#[trigger] post[k]).entries
                == ws1[k].entries)
        },
    })
}

/// The in-flight count this dispatch holds on worker `id`.
pub open spec fn pending_of(d: Dispatch, id: u64) -> int {
    if d.current == Some(id) {
        1
    } else {
        0
    }
}

/// The in-flight accounting of one dispatch against the pool as it stood
/// when the dispatch began (`base`): pool membership is unchanged, and every
/// worker's count is its base count plus what this dispatch holds on it.
pub open spec fn dispatch_accounted(base: Seq<Worker>, now: Seq<Worker>, d: Dispatch) -> bool {
    &&& distinct_ids(base)
    &&& now.len() == base.len()
    &&& (forall|i: int|
        0 <= i < base.len() ==> (#[trigger] now[i]).id == base[i].id && now[i].removed
            == base[i].removed)
    &&& (forall|i: int|
        0 <= i < base.len() ==> (#[trigger] now[i]).inflight as int == base[i].inflight
            + pending_of(d, base[i].id))
    &&& (forall|i: int| 0 <= i < base.len() ==> (#[trigger] base[i]).inflight <= u64::MAX - 2)
    &&& (match d.current {
        Some(id) => exists|i: int|
            0 <= i < base.len() && (#[trigger] base[i]).id == id && !base[i].removed,
        None => true,
    })
}

/// In-flight balance law: once a dispatch has reached a terminal step (it
/// holds no worker), every worker's in-flight count stands exactly where it
/// stood when the dispatch began — no leaks, no underflow.
pub proof fn lemma_inflight_restored(base: Seq<Worker>, now: Seq<Worker>, d: Dispatch)
    requires
        dispatch_accounted(base, now, d),
        d.current is None,
    ensures
        forall|i: int|
            0 <= i < base.len() ==> (#[trigger] now[i]).inflight == base[i].inflight,
{
}

/// Releasing the held worker keeps the dispatch accounting, with nothing
/// pending afterwards.
proof fn lemma_accounted_release(
    base: Seq<Worker>,
    ws: Seq<Worker>,
    d: Dispatch,
    d2: Dispatch,
    id: u64,
)
    requires
        dispatch_accounted(base, ws, d),
        d.current == Some(id),
        d2.current is None,
    ensures
        dispatch_accounted(base, spec_release(ws, id), d2),
{
    let ib = choose|i: int|
        0 <= i < base.len() && (#[trigger] base[i]).id == id && !base[i].removed;
    assert forall|a: int, b: int|
        0 <= a < b < ws.len() implies ws[a].id != ws[b].id by {
        assert(base[a].id != base[b].id);
    }
    lemma_index_unique(ws, ib);
    assert(ws[ib].inflight as int == base[ib].inflight + 1);
    assert(!ws[ib].removed);
    let ws1 = spec_release(ws, id);
    assert(ws1 == ws.update(
        ib,
        Worker { inflight: (ws[ib].inflight - 1) as u64, ..ws[ib] },
    ));
    assert forall|i: int|
        0 <= i < base.len() implies (#[trigger] ws1[i]).inflight as int == base[i].inflight
        + pending_of(d2, base[i].id) by {
        if i != ib {
            assert(ws1[i] == ws[i]);
            assert(base[i].id != base[ib].id);
        }
    }
}

/// Taking one in-flight count on a freshly selected live worker restores
/// the dispatch accounting, with that worker pending.
proof fn lemma_accounted_take(
    base: Seq<Worker>,
    ws: Seq<Worker>,
    post: Seq<Worker>,
    d: Dispatch,
    d2: Dispatch,
    i2: int,
)
    requires
        dispatch_accounted(base, ws, d),
        d.current is None,
        0 <= i2 < ws.len(),
        is_live(ws[i2]),
        d2.current == Some(ws[i2].id),
        post == ws.update(
            i2,
            Worker {
                inflight: if ws[i2].inflight < u64::MAX {
                    (ws[i2].inflight + 1) as u64
                } else {
                    u64::MAX
                },
                ..ws[i2]
            },
        ),
    ensures
        dispatch_accounted(base, post, d2),
{
    assert(ws[i2].inflight as int == base[i2].inflight as int);
    assert(base[i2].inflight <= u64::MAX - 2);
    assert forall|i: int|
        0 <= i < base.len() implies (#[trigger] post[i]).inflight as int == base[i].inflight
        + pending_of(d2, base[i].id) by {
        if i != i2 {
            assert(post[i] == ws[i]);
            assert(base[i].id != base[i2].id);
        }
    }
    assert(base[i2].id == ws[i2].id && !base[i2].removed);
}

impl Router {
    /// Begin dispatching one request: choose a worker under the policy,
    /// take one in-flight count on it, and hand the forward to the caller.
    /// With no eligible worker the dispatch fails immediately with
    /// `NoHealthyWorkers` — retrying an empty pool cannot succeed.
    pub fn dispatch_start(&mut self, route: RouteKind, prompt: Vec<u8>) -> (r: (
        Dispatch,
        DispatchStep,
    ))
        requires
            old(self).wf(),
        ensures
            final(self).wf(),
            final(self).config == old(self).config,
            r.0.route == route,
            final(self).rng == spec_policy_rng_after(old(self).config, old(self).rng),
            final(self).rr_counter == spec_policy_counter_after(
                old(self).config,
                old(self).rr_counter,
            ),
            r.0.wf(),
            r.0.prompt@ == prompt@,
            r.0.excluded@ == Seq::<u64>::empty(),
            r.0.attempts_left == old(self).config.retry_attempts,
            match spec_policy_select(
                old(self).pool.workers@,
                old(self).config,
                old(self).rr_counter,
                old(self).rng,
                prompt@,
                Seq::<u64>::empty(),
            ) {
                None => {
                    &&& r.1 == (DispatchStep::Fail { error: RouterError::NoHealthyWorkers })
                    &&& r.0.done
                    &&& r.0.current is None
                    &&& final(self).pool == old(self).pool
                },
                Some(i) => {
                    &&& (r.1 matches DispatchStep::Forward { worker_id, url } && worker_id == old(
                        self,
                    ).pool.workers@[i as int].id && url@ == old(self).pool.workers@[i as int].url@)
                    &&& !r.0.done
                    &&& r.0.current == Some(old(self).pool.workers@[i as int].id)
                    &&& spec_eligible(old(self).pool.workers@[i as int], Seq::<u64>::empty())
                    &&& final(self).pool.workers@ == old(self).pool.workers@.update(
                        i as int,
                        Worker {
                            inflight: if old(self).pool.workers@[i as int].inflight < u64::MAX {
                                (old(self).pool.workers@[i as int].inflight + 1) as u64
                            } else {
                                u64::MAX
                            },
                            ..old(self).pool.workers@[i as int]
                        },
                    )
                    &&& final(self).pool.next_id == old(self).pool.next_id
                },
            },
            (forall|i: int|
                0 <= i < old(self).pool.workers@.len() ==> (#[trigger] old(
                    self,
                ).pool.workers@[i]).inflight <= u64::MAX - 2) ==> dispatch_accounted(
                old(self).pool.workers@,
                final(self).pool.workers@,
                r.0,
            ),
    {
        let mut d = Dispatch {
            route,
            prompt,
            excluded: Vec::new(),
            attempts_left: self.config.retry_attempts,
            current: None,
            done: false,
        };
        let ghost ws = self.pool.workers@;
        let picked = self.select(&d.prompt, &d.excluded);
        match picked {
            None => {
                d.done = true;
                (d, DispatchStep::Fail { error: RouterError::NoHealthyWorkers })
            },
            Some(id) => {
                let ghost gi = spec_policy_select(
                    ws,
                    old(self).config,
                    old(self).rr_counter,
                    old(self).rng,
                    d.prompt@,
                    Seq::<u64>::empty(),
                )->Some_0 as int;
                proof {
                    lemma_live_index_unique(ws, gi);
                }
                self.pool.incr_inflight(id);
                d.current = Some(id);
                proof {
                    lemma_live_index_unique(self.pool.workers@, gi);
                    if forall|k: int|
                        0 <= k < ws.len() ==> (#[trigger] ws[k]).inflight <= u64::MAX - 2 {
                        assert forall|k: int|
                            0 <= k < ws.len() implies (#[trigger] self.pool.workers@[k]).inflight
                                as int == ws[k].inflight + pending_of(d, ws[k].id) by {
                            if k != gi {
                                assert(self.pool.workers@[k] == ws[k]);
                                assert(ws[k].id != ws[gi].id);
                            } else {
                                assert(ws[gi].inflight <= u64::MAX - 2);
                            }
                        }
                    }
                }
                let url = self.pool.url_of(id);
                (d, DispatchStep::Forward { worker_id: id, url })
            },
        }
    }

    /// Fold one forward outcome back into the dispatch.
    ///
    /// A reply below 400 finishes the dispatch: the caller relays it, and
    /// under the cache-aware policy the prompt is recorded on the worker
    /// that served it. A 4xx reply also finishes the dispatch, relayed
    /// verbatim and never retried: the request, not the worker, is presumed
    /// at fault. A 5xx reply or a transport failure excludes the worker and
    /// spends one attempt: with budget left and an eligible worker
    /// remaining, the caller gets the next forward; otherwise the dispatch
    /// fails with a gateway error, or with `NoHealthyWorkers` when nobody
    /// eligible remains. The released and newly taken in-flight counts keep
    /// the dispatch accounting exact on every path.
    pub fn dispatch_report(&mut self, d: &mut Dispatch, outcome: ForwardOutcome) -> (r:
        DispatchStep)
        requires
            old(self).wf(),
            old(d).wf(),
            !old(d).done,
        ensures
            final(self).wf(),
            final(d).wf(),
            final(self).config == old(self).config,
            final(d).prompt == old(d).prompt,
            final(d).route == old(d).route,
            (r is Forward <==> !final(d).done),
            (!outcome_failed(outcome) ==> {
                &&& r == (DispatchStep::Respond { status: outcome_status(outcome) })
                &&& final(d).done
                &&& final(d).current is None
                &&& final(d).excluded == old(d).excluded
                &&& final(d).attempts_left == old(d).attempts_left
                &&& final(self).rng == old(self).rng
                &&& final(self).rr_counter == old(self).rr_counter
            }),
            (!outcome_failed(outcome) && outcome_status(outcome) < 400) ==> spec_settled(
                old(self).pool.workers@,
                final(self).pool.workers@,
                old(d).current->Some_0,
                old(d).prompt@,
                old(self).cache_cap(),
                old(self).config.policy is CacheAware,
            ),
            (!outcome_failed(outcome) && outcome_status(outcome) >= 400)
                ==> final(self).pool.workers@ == spec_release(
                old(self).pool.workers@,
                old(d).current->Some_0,
            ),
            outcome_failed(outcome) ==> {
                &&& final(d).excluded@ == old(d).excluded@.push(old(d).current->Some_0)
                &&& final(d).attempts_left == old(d).attempts_left - 1
                &&& (old(d).attempts_left == 1 ==> {
                    &&& r == (DispatchStep::Fail { error: fail_error(outcome) })
                    &&& final(d).done
                    &&& final(self).pool.workers@ == spec_release(
                        old(self).pool.workers@,
                        old(d).current->Some_0,
                    )
                    &&& final(self).rng == old(self).rng
                    &&& final(self).rr_counter == old(self).rr_counter
                })
                &&& (old(d).attempts_left >= 2 ==> {
                    &&& final(self).rng == spec_policy_rng_after(old(self).config, old(self).rng)
                    &&& final(self).rr_counter == spec_policy_counter_after(
                        old(self).config,
                        old(self).rr_counter,
                    )
                    &&& match spec_policy_select(
                        spec_release(old(self).pool.workers@, old(d).current->Some_0),
                        old(self).config,
                        old(self).rr_counter,
                        old(self).rng,
                        old(d).prompt@,
                        old(d).excluded@.push(old(d).current->Some_0),
                    ) {
                        None => {
                            &&& r == (DispatchStep::Fail { error: RouterError::NoHealthyWorkers })
                            &&& final(d).done
                            &&& final(self).pool.workers@ == spec_release(
                                old(self).pool.workers@,
                                old(d).current->Some_0,
                            )
                        },
                        Some(i2) => {
                            &&& (r matches DispatchStep::Forward { worker_id, url }
                                && worker_id == spec_release(
                                old(self).pool.workers@,
                                old(d).current->Some_0,
                            )[i2 as int].id && url@ == spec_release(
                                old(self).pool.workers@,
                                old(d).current->Some_0,
                            )[i2 as int].url@)
                            &&& !final(d).done
                            &&& final(d).current == Some(spec_release(
                                old(self).pool.workers@,
                                old(d).current->Some_0,
                            )[i2 as int].id)
                            &&& spec_eligible(
                                spec_release(
                                    old(self).pool.workers@,
                                    old(d).current->Some_0,
                                )[i2 as int],
                                old(d).excluded@.push(old(d).current->Some_0),
                            )
                        },
                    }
                })
            },
            forall|base: Seq<Worker>| #[trigger]
                dispatch_accounted(base, old(self).pool.workers@, *old(d))
                    ==> dispatch_accounted(base, final(self).pool.workers@, *final(d)),
    {
        let id = match d.current {
            Some(id) => id,
            None => {
                proof {
                    assert(false);
                }
                0
            },
        };
        let ghost ws = self.pool.workers@;
        let ghost ws1 = spec_release(ws, id);
        self.pool.decr_inflight(id);
        d.current = None;
        proof {
            lemma_index_from(ws, id, 0);
            assert(self.pool.workers@ == ws1);
            assert(self.wf()) by {
                match index_of_id(ws, id) {
                    None => {},
                    Some(j) => {
                        if ws[j].inflight >= 1 && ws[j].removed && ws[j].inflight == 1 {
                            ws.remove_ensures(j);
                            assert forall|k: int|
                                0 <= k < ws1.len() implies (#[trigger] ws1[k]).entries@.len()
                                <= self.cache_cap() by {
                                if k < j {
                                    assert(ws.remove(j)[k] == ws[k]);
                                } else {
                                    assert(ws.remove(j)[k] == ws[k + 1]);
                                }
                            }
                        } else if ws[j].inflight >= 1 {
                            let wsu = ws.update(
                                j,
                                Worker { inflight: (ws[j].inflight - 1) as u64, ..ws[j] },
                            );
                            assert forall|k: int|
                                0 <= k < wsu.len() implies (#[trigger] wsu[k]).entries@.len()
                                <= self.cache_cap() by {
                                if k != j {
                                    assert(wsu[k] == ws[k]);
                                }
                            }
                        }
                    },
                }
            }
            assert forall|base: Seq<Worker>| #[trigger]
                dispatch_accounted(base, ws, *old(d)) implies dispatch_accounted(
                base,
                ws1,
                *d,
            ) by {
                lemma_accounted_release(base, ws, *old(d), *d, id);
            }
        }
        let failed = match outcome {
            ForwardOutcome::Replied { status } => status >= 500,
            ForwardOutcome::TransportError => true,
        };
        if !failed {
            let status = match outcome {
                ForwardOutcome::Replied { status } => status,
                ForwardOutcome::TransportError => 0,
            };
            d.done = true;
            if status < 400 {
                match self.config.policy {
                    PolicyChoice::CacheAware { max_tree_nodes, .. } => {
                        let ghost pre = *d;
                        let _noted = self.pool.note_prompt(id, &d.prompt, max_tree_nodes);
                        proof {
                            lemma_live_index_from(ws1, id, 0);
                            assert forall|base: Seq<Worker>| #[trigger]
                                dispatch_accounted(base, ws1, pre) implies dispatch_accounted(
                                base,
                                self.pool.workers@,
                                *d,
                            ) by {}
                        }
                    },
                    _ => {},
                }
            }
            DispatchStep::Respond { status }
        } else {
            d.excluded.push(id);
            d.attempts_left = d.attempts_left - 1;
            if d.attempts_left == 0 {
                d.done = true;
                DispatchStep::Fail {
                    error: match outcome {
                        ForwardOutcome::TransportError => RouterError::WorkerUnreachable,
                        ForwardOutcome::Replied { .. } => RouterError::WorkerServerError,
                    },
                }
            } else {
                let ghost mid = *self;
                let picked = self.select(&d.prompt, &d.excluded);
                match picked {
                    None => {
                        d.done = true;
                        DispatchStep::Fail { error: RouterError::NoHealthyWorkers }
                    },
                    Some(id2) => {
                        let ghost gi2 = spec_policy_select(
                            ws1,
                            old(self).config,
                            old(self).rr_counter,
                            old(self).rng,
                            d.prompt@,
                            d.excluded@,
                        )->Some_0 as int;
                        let ghost pre = *d;
                        proof {
                            lemma_live_index_unique(ws1, gi2);
                        }
                        self.pool.incr_inflight(id2);
                        d.current = Some(id2);
                        proof {
                            lemma_live_index_unique(self.pool.workers@, gi2);
                            assert forall|base: Seq<Worker>| #[trigger]
                                dispatch_accounted(base, ws1, pre) implies dispatch_accounted(
                                base,
                                self.pool.workers@,
                                *d,
                            ) by {
                                lemma_accounted_take(
                                    base,
                                    ws1,
                                    self.pool.workers@,
                                    pre,
                                    *d,
                                    gi2,
                                );
                            }
                        }
                        let url = self.pool.url_of(id2);
                        DispatchStep::Forward { worker_id: id2, url }
                    },
                }
            }
        }
    }
}

} // verus!
