//! Selection policies: which worker serves a request. Four variants share one
//! contract: a worker id comes back exactly when an eligible worker exists,
//! where eligible means live, healthy and not excluded by the caller.

use vstd::prelude::*;
use vstd::arithmetic::div_mod::{
    lemma_mod_division_less_than_divisor, lemma_mod_multiples_vanish, lemma_small_mod,
};
use crate::pool::is_live;
use crate::worker::Worker;

verus! {

/// The tagged choice of selection policy.
#[derive(Clone, Copy, Debug)]
pub enum PolicyChoice {
    /// Uniform choice among the eligible workers.
    Random,
    /// A monotone counter walks the pool in insertion order; `start` seeds it.
    RoundRobin { start: u64 },
    /// Sample two distinct eligible workers, keep the less loaded.
    PowerOfTwo,
    /// Route to the worker whose affinity index holds the longest prefix of
    /// the prompt; fall back to power-of-two-choices on a cold miss.
    CacheAware { max_tree_nodes: usize, eviction_interval_ms: u64 },
}

/// The policy variant plus the shared tunables, fixed at construction.
#[derive(Clone, Copy, Debug)]
pub struct PolicyConfig {
    pub policy: PolicyChoice,
    /// How many forwards one dispatch may try before a gateway error.
    pub retry_attempts: u64,
    /// Per-forward timeout the caller applies to each outbound call.
    pub timeout_ms: u64,
    /// How often the health monitor probes every worker.
    pub health_check_interval_ms: u64,
    /// Consecutive failed probes before a healthy worker turns unhealthy.
    pub failure_threshold: u64,
    /// Consecutive successful probes before an unhealthy worker recovers.
    pub success_threshold: u64,
    /// Seed of the selection generator.
    pub seed: u64,
}

/// One step of the xorshift pseudo-random generator behind the randomized
/// policies. Deterministic and spec-visible; no uniformity is claimed.
pub open spec fn rng_next(s: u64) -> u64 {
    let a = s ^ (s << 13u64);
    let b = a ^ (a >> 7u64);
    b ^ (b << 17u64)
}

/// Advance the generator and hand back the fresh draw.
pub fn rng_step(state: &mut u64) -> (r: u64)
    ensures
        r == rng_next(*old(state)),
        *final(state) == rng_next(*old(state)),
{
    let s = *state;
    let a = s ^ (s << 13u64);
    let b = a ^ (a >> 7u64);
    let r = b ^ (b << 17u64);
    *state = r;
    r
}

/// Reduce a draw to a position below `n`.
fn draw_below(d: u64, n: usize) -> (r: usize)
    requires
        n > 0,
    ensures
        r < n,
        r as int == d as int % n as int,
{
    let r64 = d % (n as u64);
    r64 as usize
}

/// A worker may be selected: a live pool member, currently healthy, and not
/// excluded by the caller (the dispatcher excludes workers that already
/// failed this request).
pub open spec fn spec_eligible(w: Worker, excluded: Seq<u64>) -> bool {
    w.healthy && is_live(w) && !excluded.contains(w.id)
}

/// Whether `id` is in the caller's exclusion list.
fn is_excluded(excluded: &Vec<u64>, id: u64) -> (r: bool)
    ensures
        r == excluded@.contains(id),
{
    let mut k: usize = 0;
    while k < excluded.len()
        invariant
            k <= excluded@.len(),
            forall|j: int| 0 <= j < k ==> excluded@[j] != id,
        decreases excluded@.len() - k,
    {
        if excluded[k] == id {
            return true;
        }
        k = k + 1;
    }
    false
}

/// The positions of the eligible workers, in insertion order.
pub open spec fn eligible_idxs(ws: Seq<Worker>, ex: Seq<u64>) -> Seq<usize>
    decreases ws.len(),
{
    if ws.len() == 0 {
        Seq::empty()
    } else {
        let rest = eligible_idxs(ws.drop_last(), ex);
        if spec_eligible(ws.last(), ex) {
            rest.push((ws.len() - 1) as usize)
        } else {
            rest
        }
    }
}

/// `eligible_idxs` lists exactly the eligible positions, strictly increasing.
pub proof fn lemma_eligible_idxs(ws: Seq<Worker>, ex: Seq<u64>)
    requires
        ws.len() <= usize::MAX,
    ensures
        forall|k: int|
            0 <= k < eligible_idxs(ws, ex).len() ==> (#[trigger] eligible_idxs(ws, ex)[k]) < ws.len()
                && spec_eligible(ws[eligible_idxs(ws, ex)[k] as int], ex),
        forall|i: int|
            0 <= i < ws.len() && spec_eligible(#[trigger] ws[i], ex) ==> eligible_idxs(
                ws,
                ex,
            ).contains(i as usize),
        forall|a: int, b: int|
            0 <= a < b < eligible_idxs(ws, ex).len() ==> eligible_idxs(ws, ex)[a] < eligible_idxs(
                ws,
                ex,
            )[b],
    decreases ws.len(),
{
    if ws.len() > 0 {
        lemma_eligible_idxs(ws.drop_last(), ex);
        let rest = eligible_idxs(ws.drop_last(), ex);
        let el = eligible_idxs(ws, ex);
        assert(forall|i: int| 0 <= i < ws.len() - 1 ==> ws.drop_last()[i] == ws[i]);
        assert forall|k: int|
            0 <= k < el.len() implies (#[trigger] el[k]) < ws.len() && spec_eligible(
            ws[el[k] as int],
            ex,
        ) by {
            if spec_eligible(ws.last(), ex) {
                assert(el == rest.push((ws.len() - 1) as usize));
                if k < rest.len() {
                    assert(el[k] == rest[k]);
                    assert(rest[k] < ws.drop_last().len());
                    assert(spec_eligible(ws.drop_last()[rest[k] as int], ex));
                } else {
                    assert(el[k] == (ws.len() - 1) as usize);
                }
            } else {
                assert(el == rest);
                assert(rest[k] < ws.drop_last().len());
                assert(spec_eligible(ws.drop_last()[rest[k] as int], ex));
            }
        }
        assert forall|a: int, b: int|
            0 <= a < b < el.len() implies el[a] < el[b] by {
            if spec_eligible(ws.last(), ex) {
                assert(el == rest.push((ws.len() - 1) as usize));
                if b < rest.len() {
                    assert(el[a] == rest[a] && el[b] == rest[b]);
                } else {
                    assert(el[a] == rest[a]);
                    assert(rest[a] < ws.drop_last().len());
                    assert(el[b] == (ws.len() - 1) as usize);
                }
            } else {
                assert(el == rest);
            }
        }
        assert forall|i: int|
            0 <= i < ws.len() && spec_eligible(#[trigger] ws[i], ex) implies el.contains(
            i as usize,
        ) by {
            if i == ws.len() - 1 {
                assert(el[el.len() - 1] == i as usize);
            } else {
                assert(ws.drop_last()[i] == ws[i]);
                assert(rest.contains(i as usize));
                let k = choose|k: int| 0 <= k < rest.len() && rest[k] == i as usize;
                assert(el[k] == i as usize);
            }
        }
    }
}

/// Collect the positions of the eligible workers.
#[verifier::loop_isolation(false)]
fn eligible_indices(ws: &Vec<Worker>, excluded: &Vec<u64>) -> (r: Vec<usize>)
    ensures
        r@ == eligible_idxs(ws@, excluded@),
{
    let mut r: Vec<usize> = Vec::new();
    let mut k: usize = 0;
    while k < ws.len()
        invariant
            k <= ws@.len(),
            r@ == eligible_idxs(ws@.take(k as int), excluded@),
        decreases ws@.len() - k,
    {
        proof {
            assert(ws@.take(k + 1).drop_last() =~= ws@.take(k as int));
            assert(ws@.take(k + 1).last() == ws@[k as int]);
        }
        let w = &ws[k];
        if w.healthy && !w.removed && !is_excluded(excluded, w.id) {
            r.push(k);
        }
        k = k + 1;
    }
    proof {
        assert(ws@.take(ws@.len() as int) =~= ws@);
    }
    r
}

/// What uniform random selection returns: position `draw mod count` of the
/// eligible list, none when no worker is eligible.
pub open spec fn spec_select_random(ws: Seq<Worker>, ex: Seq<u64>, draw: u64) -> Option<usize> {
    let el = eligible_idxs(ws, ex);
    if el.len() == 0 {
        None
    } else {
        Some(el[draw as int % el.len() as int])
    }
}

/// Uniform choice among the eligible workers, driven by one generator draw.
pub fn select_random(ws: &Vec<Worker>, excluded: &Vec<u64>, draw: u64) -> (r: Option<usize>)
    ensures
        r == spec_select_random(ws@, excluded@, draw),
{
    let el = eligible_indices(ws, excluded);
    if el.len() == 0 {
        None
    } else {
        let i = draw_below(draw, el.len());
        Some(el[i])
    }
}

/// The position round-robin probes at step `k`: the counter position, then
/// the following positions in insertion order, wrapping around.
pub open spec fn rr_index(counter: u64, n: nat, k: nat) -> int {
    ((counter as int % n as int) + k) % n as int
}

/// First eligible probe position at or after step `k`.
pub open spec fn rr_scan(ws: Seq<Worker>, ex: Seq<u64>, counter: u64, k: nat) -> Option<usize>
    decreases ws.len() - k,
{
    if ws.len() == 0 || k >= ws.len() {
        None
    } else if spec_eligible(ws[rr_index(counter, ws.len(), k)], ex) {
        Some(rr_index(counter, ws.len(), k) as usize)
    } else {
        rr_scan(ws, ex, counter, k + 1)
    }
}

/// What round-robin selection returns for a given counter: the first eligible
/// worker at or after position `counter mod pool size`, probing at most one
/// full turn.
pub open spec fn spec_select_rr(ws: Seq<Worker>, ex: Seq<u64>, counter: u64) -> Option<usize> {
    rr_scan(ws, ex, counter, 0)
}

/// A probe position is always a real position, and a scan returns only
/// eligible positions.
pub proof fn lemma_rr_index_bounds(counter: u64, n: nat, k: nat)
    requires
        n > 0,
    ensures
        0 <= rr_index(counter, n, k) < n,
{
    lemma_mod_division_less_than_divisor(counter as int % n as int + k, n as int);
}

/// A scan that comes back empty inspected only ineligible workers.
pub proof fn lemma_rr_scan_none(ws: Seq<Worker>, ex: Seq<u64>, counter: u64, k: nat)
    requires
        k <= ws.len(),
        rr_scan(ws, ex, counter, k) is None,
    ensures
        forall|j: nat|
            k <= j < ws.len() ==> !spec_eligible(ws[rr_index(counter, ws.len(), j)], ex),
    decreases ws.len() - k,
{
    if k < ws.len() {
        lemma_rr_scan_none(ws, ex, counter, k + 1);
        assert forall|j: nat|
            k <= j < ws.len() implies !spec_eligible(
            ws[rr_index(counter, ws.len(), j)],
            ex,
        ) by {
            if j != k {
                assert(k + 1 <= j < ws.len());
            }
        }
    }
}

/// A scan result is an eligible position.
pub proof fn lemma_rr_scan_some(ws: Seq<Worker>, ex: Seq<u64>, counter: u64, k: nat, i: usize)
    requires
        ws.len() <= usize::MAX,
        k <= ws.len(),
        rr_scan(ws, ex, counter, k) == Some(i),
    ensures
        i < ws.len(),
        spec_eligible(ws[i as int], ex),
    decreases ws.len() - k,
{
    if k < ws.len() {
        if spec_eligible(ws[rr_index(counter, ws.len(), k)], ex) {
            lemma_rr_index_bounds(counter, ws.len(), k);
            assert(rr_scan(ws, ex, counter, k) == Some(rr_index(counter, ws.len(), k) as usize));
            assert(i as int == rr_index(counter, ws.len(), k));
        } else {
            lemma_rr_scan_some(ws, ex, counter, k + 1, i);
        }
    }
}

/// One full turn of probes visits every position.
pub proof fn lemma_rr_hits_all(counter: u64, n: nat, i: int)
    requires
        n > 0,
        0 <= i < n,
    ensures
        exists|k: nat| k < n && #[trigger] rr_index(counter, n, k) == i,
{
    let s = counter as int % n as int;
    lemma_mod_division_less_than_divisor(counter as int, n as int);
    if i >= s {
        let k = (i - s) as nat;
        lemma_small_mod(i as nat, n);
        assert(rr_index(counter, n, k) == i);
    } else {
        let k = (i + n - s) as nat;
        lemma_mod_multiples_vanish(1, i, n as int);
        lemma_small_mod(i as nat, n);
        assert((s + k) == i + n);
        assert(rr_index(counter, n, k) == i);
    }
}

/// Round-robin returns a worker exactly when an eligible one exists.
pub proof fn lemma_rr_complete(ws: Seq<Worker>, ex: Seq<u64>, counter: u64)
    requires
        ws.len() <= usize::MAX,
    ensures
        (spec_select_rr(ws, ex, counter) is Some) <==> exists|i: int|
            0 <= i < ws.len() && spec_eligible(#[trigger] ws[i], ex),
        match spec_select_rr(ws, ex, counter) {
            Some(i) => i < ws.len() && spec_eligible(ws[i as int], ex),
            None => true,
        },
{
    match spec_select_rr(ws, ex, counter) {
        Some(i) => {
            lemma_rr_scan_some(ws, ex, counter, 0, i);
        },
        None => {
            lemma_rr_scan_none(ws, ex, counter, 0);
            assert forall|i: int|
                0 <= i < ws.len() implies !spec_eligible(#[trigger] ws[i], ex) by {
                lemma_rr_hits_all(counter, ws.len(), i);
                let k = choose|k: nat| k < ws.len() && rr_index(counter, ws.len(), k) == i;
                assert(!spec_eligible(ws[rr_index(counter, ws.len(), k)], ex));
            }
        },
    }
}

/// The first position power-of-two-choices samples from the eligible list.
pub open spec fn p2c_first(el: Seq<usize>, d1: u64) -> int {
    d1 as int % el.len() as int
}

/// The second sampled position: a draw among the remaining ones, shifted past
/// the first so the two are always distinct.
pub open spec fn p2c_second(el: Seq<usize>, d1: u64, d2: u64) -> int {
    let i = p2c_first(el, d1);
    let jraw = d2 as int % (el.len() - 1);
    if jraw >= i {
        jraw + 1
    } else {
        jraw
    }
}

/// What power-of-two-choices returns: none without an eligible worker, the
/// single eligible worker directly, else the less loaded of two distinct
/// samples, ties to the first sampled.
pub open spec fn spec_select_p2c(ws: Seq<Worker>, ex: Seq<u64>, d1: u64, d2: u64) -> Option<
    usize,
> {
    let el = eligible_idxs(ws, ex);
    if el.len() == 0 {
        None
    } else if el.len() == 1 {
        Some(el[0])
    } else {
        let a = el[p2c_first(el, d1)];
        let b = el[p2c_second(el, d1, d2)];
        if ws[b as int].inflight < ws[a as int].inflight {
            Some(b)
        } else {
            Some(a)
        }
    }
}

/// Power-of-two-choices law: with at least two eligible workers, the two
/// samples are distinct eligible workers and the returned one carries an
/// in-flight count no higher than either sample's count at sampling time.
pub proof fn lemma_p2c_lower_load(ws: Seq<Worker>, ex: Seq<u64>, d1: u64, d2: u64)
    requires
        ws.len() <= usize::MAX,
        eligible_idxs(ws, ex).len() >= 2,
    ensures
        spec_select_p2c(ws, ex, d1, d2) is Some,
        ({
            let el = eligible_idxs(ws, ex);
            let a = el[p2c_first(el, d1)];
            let b = el[p2c_second(el, d1, d2)];
            let c = spec_select_p2c(ws, ex, d1, d2)->Some_0;
            &&& a != b
            &&& c == a || c == b
            &&& spec_eligible(ws[a as int], ex)
            &&& spec_eligible(ws[b as int], ex)
            &&& spec_eligible(ws[c as int], ex)
            &&& ws[c as int].inflight <= ws[a as int].inflight
            &&& ws[c as int].inflight <= ws[b as int].inflight
        }),
{
    lemma_eligible_idxs(ws, ex);
    let el = eligible_idxs(ws, ex);
    let i = p2c_first(el, d1);
    let j = p2c_second(el, d1, d2);
    lemma_mod_division_less_than_divisor(d1 as int, el.len() as int);
    lemma_mod_division_less_than_divisor(d2 as int, el.len() - 1);
    assert(0 <= i < el.len());
    assert(0 <= j < el.len());
    assert(i != j);
    assert(el[i] != el[j]);
}

/// The less loaded of two distinct eligible samples; the single eligible
/// worker when there is no pair to sample.
pub fn select_p2c(ws: &Vec<Worker>, excluded: &Vec<u64>, d1: u64, d2: u64) -> (r: Option<usize>)
    ensures
        r == spec_select_p2c(ws@, excluded@, d1, d2),
{
    let el = eligible_indices(ws, excluded);
    proof {
        broadcast use vstd::std_specs::vec::axiom_spec_len;

        assert(ws@.len() == ws.len());
        lemma_eligible_idxs(ws@, excluded@);
    }
    if el.len() == 0 {
        None
    } else if el.len() == 1 {
        Some(el[0])
    } else {
        let i = draw_below(d1, el.len());
        let jraw = draw_below(d2, el.len() - 1);
        let j = if jraw >= i {
            jraw + 1
        } else {
            jraw
        };
        let a = el[i];
        let b = el[j];
        proof {
            assert(i as int == p2c_first(el@, d1));
            assert(j as int == p2c_second(el@, d1, d2));
        }
        if ws[b].inflight < ws[a].inflight {
            Some(b)
        } else {
            Some(a)
        }
    }
}

/// The champion of cache-aware selection among the eligible positions `el`:
/// the worker with the longest affinity match for the prompt, ties broken by
/// the lower in-flight count, then by insertion order.
pub open spec fn cache_champion(ws: Seq<Worker>, el: Seq<usize>, p: Seq<u8>) -> usize
    decreases el.len(),
{
    if el.len() <= 1 {
        el[0]
    } else {
        let prev = cache_champion(ws, el.drop_last(), p);
        let cand = el.last();
        if ws[cand as int].match_len(p) > ws[prev as int].match_len(p) || (ws[cand as int].match_len(
            p,
        ) == ws[prev as int].match_len(p) && ws[cand as int].inflight < ws[prev as int].inflight) {
            cand
        } else {
            prev
        }
    }
}

/// The champion is one of the candidates, carries the longest match, and has
/// the lowest in-flight count among the candidates that tie on match length.
pub proof fn lemma_cache_champion(ws: Seq<Worker>, el: Seq<usize>, p: Seq<u8>)
    requires
        el.len() > 0,
        forall|k: int| 0 <= k < el.len() ==> (#[trigger] el[k]) < ws.len(),
    ensures
        el.contains(cache_champion(ws, el, p)),
        forall|k: int|
            0 <= k < el.len() ==> ws[cache_champion(ws, el, p) as int].match_len(p)
                >= ws[(#[trigger] el[k]) as int].match_len(p),
        forall|k: int|
            0 <= k < el.len() && ws[(#[trigger] el[k]) as int].match_len(p) == ws[cache_champion(
                ws,
                el,
                p,
            ) as int].match_len(p) ==> ws[cache_champion(ws, el, p) as int].inflight
                <= ws[el[k] as int].inflight,
    decreases el.len(),
{
    let champ = cache_champion(ws, el, p);
    if el.len() == 1 {
        assert(el[0] == champ);
        assert(el.contains(champ));
    } else {
        lemma_cache_champion(ws, el.drop_last(), p);
        let prev = cache_champion(ws, el.drop_last(), p);
        assert(forall|k: int| 0 <= k < el.len() - 1 ==> el.drop_last()[k] == el[k]);
        if champ == el.last() && champ != prev {
            assert(el[el.len() - 1] == champ);
            assert(el.contains(champ));
        } else {
            let k = choose|k: int|
                0 <= k < el.drop_last().len() && el.drop_last()[k] == prev;
            assert(el[k] == prev);
            assert(el.contains(champ));
        }
    }
}

/// What cache-aware selection returns: the champion when it has any matching
/// prefix at all, otherwise (a cold miss) the power-of-two-choices fallback.
pub open spec fn spec_select_cache(
    ws: Seq<Worker>,
    ex: Seq<u64>,
    p: Seq<u8>,
    d1: u64,
    d2: u64,
) -> Option<usize> {
    let el = eligible_idxs(ws, ex);
    if el.len() == 0 {
        None
    } else {
        let champ = cache_champion(ws, el, p);
        if ws[champ as int].match_len(p) > 0 {
            Some(champ)
        } else {
            spec_select_p2c(ws, ex, d1, d2)
        }
    }
}

/// Cache-affinity law: when exactly one eligible worker holds a strictly
/// longest (and non-empty) matching prefix for the prompt, cache-aware
/// selection returns that worker, whatever the generator draws.
pub proof fn lemma_cache_affinity(
    ws: Seq<Worker>,
    ex: Seq<u64>,
    p: Seq<u8>,
    d1: u64,
    d2: u64,
    a: int,
)
    requires
        ws.len() <= usize::MAX,
        0 <= a < ws.len(),
        spec_eligible(ws[a], ex),
        ws[a].match_len(p) > 0,
        forall|k: int|
            0 <= k < ws.len() && k != a && spec_eligible(#[trigger] ws[k], ex) ==> ws[k].match_len(
                p,
            ) < ws[a].match_len(p),
    ensures
        spec_select_cache(ws, ex, p, d1, d2) == Some(a as usize),
{
    lemma_eligible_idxs(ws, ex);
    let el = eligible_idxs(ws, ex);
    assert(el.contains(a as usize));
    assert(el.len() > 0);
    lemma_cache_champion(ws, el, p);
    let champ = cache_champion(ws, el, p);
    let ka = choose|k: int| 0 <= k < el.len() && el[k] == a as usize;
    assert(ws[champ as int].match_len(p) >= ws[a].match_len(p));
    if champ != a as usize {
        let kc = choose|k: int| 0 <= k < el.len() && el[k] == champ;
        assert(spec_eligible(ws[champ as int], ex));
        assert(ws[champ as int].match_len(p) < ws[a].match_len(p));
        assert(false);
    }
}

/// Cache-aware selection: longest affinity match first, load as tie-break,
/// power-of-two-choices on a cold miss.
#[verifier::loop_isolation(false)]
#[verifier::rlimit(60)]
pub fn select_cache(
    ws: &Vec<Worker>,
    excluded: &Vec<u64>,
    prompt: &Vec<u8>,
    d1: u64,
    d2: u64,
) -> (r: Option<usize>)
    ensures
        r == spec_select_cache(ws@, excluded@, prompt@, d1, d2),
{
    let el = eligible_indices(ws, excluded);
    proof {
        broadcast use vstd::std_specs::vec::axiom_spec_len;

        assert(ws@.len() == ws.len());
        lemma_eligible_idxs(ws@, excluded@);
    }
    if el.len() == 0 {
        return None;
    }
    let mut champ: usize = el[0];
    let mut champ_match: usize = ws[champ].best_match(prompt.as_slice());
    let mut k: usize = 1;
    while k < el.len()
        invariant
            1 <= k <= el@.len(),
            champ == cache_champion(ws@, el@.take(k as int), prompt@),
            champ < ws@.len(),
            champ_match == ws@[champ as int].match_len(prompt@),
        decreases el@.len() - k,
    {
        proof {
            assert(el@.take(k + 1).drop_last() =~= el@.take(k as int));
            assert(el@.take(k + 1).last() == el@[k as int]);
        }
        let cand = el[k];
        let m = ws[cand].best_match(prompt.as_slice());
        if m > champ_match || (m == champ_match && ws[cand].inflight < ws[champ].inflight) {
            champ = cand;
            champ_match = m;
        }
        k = k + 1;
    }
    proof {
        assert(el@.take(el@.len() as int) =~= el@);
    }
    if champ_match > 0 {
        Some(champ)
    } else {
        select_p2c(ws, excluded, d1, d2)
    }
}

/// First eligible worker at or after the counter position, one turn at most.
#[verifier::loop_isolation(false)]
pub fn select_rr(ws: &Vec<Worker>, excluded: &Vec<u64>, counter: u64) -> (r: Option<usize>)
    ensures
        r == spec_select_rr(ws@, excluded@, counter),
{
    let n = ws.len();
    if n == 0 {
        return None;
    }
    let s = draw_below(counter, n);
    let mut k: usize = 0;
    while k < n
        invariant
            k <= n,
            rr_scan(ws@, excluded@, counter, k as nat) == spec_select_rr(ws@, excluded@, counter),
        decreases n - k,
    {
        let idx = if k < n - s {
            s + k
        } else {
            k - (n - s)
        };
        proof {
            if k < n - s {
                lemma_small_mod((s + k) as nat, n as nat);
            } else {
                lemma_mod_multiples_vanish(1, s + k - n, n as int);
                lemma_small_mod((s + k - n) as nat, n as nat);
            }
            assert(idx as int == rr_index(counter, n as nat, k as nat));
        }
        let w = &ws[idx];
        if w.healthy && !w.removed && !is_excluded(excluded, w.id) {
            return Some(idx);
        }
        k = k + 1;
    }
    None
}

/// Which position the configured policy selects, over a given pool snapshot
/// and policy state: the one spec behind `Router::select` and the dispatch
/// retry loop.
pub open spec fn spec_policy_select(
    ws: Seq<Worker>,
    config: PolicyConfig,
    counter: u64,
    rng: u64,
    p: Seq<u8>,
    ex: Seq<u64>,
) -> Option<usize> {
    match config.policy {
        PolicyChoice::Random => spec_select_random(ws, ex, rng_next(rng)),
        PolicyChoice::RoundRobin { .. } => spec_select_rr(ws, ex, counter),
        PolicyChoice::PowerOfTwo => spec_select_p2c(ws, ex, rng_next(rng), rng_next(rng_next(rng))),
        PolicyChoice::CacheAware { .. } => spec_select_cache(
            ws,
            ex,
            p,
            rng_next(rng),
            rng_next(rng_next(rng)),
        ),
    }
}

/// The generator state one selection leaves behind: one step for the
/// policies that draw once, two for the pair-sampling ones.
pub open spec fn spec_policy_rng_after(config: PolicyConfig, rng: u64) -> u64 {
    match config.policy {
        PolicyChoice::Random | PolicyChoice::RoundRobin { .. } => rng_next(rng),
        PolicyChoice::PowerOfTwo | PolicyChoice::CacheAware { .. } => rng_next(rng_next(rng)),
    }
}

/// The counter one selection leaves behind: round-robin advances by one on
/// every call, wrapping at the machine limit; other policies keep it.
pub open spec fn spec_policy_counter_after(config: PolicyConfig, counter: u64) -> u64 {
    match config.policy {
        PolicyChoice::RoundRobin { .. } => if counter == u64::MAX {
            0u64
        } else {
            (counter + 1) as u64
        },
        _ => counter,
    }
}

/// Round-robin fairness law, step: with every worker eligible, the
/// selection at counter `c + i` is exactly the worker at position
/// `(c + i) mod n`: consecutive calls walk the pool in insertion order
/// from the counter position.
pub proof fn lemma_round_robin_cycle(ws: Seq<Worker>, ex: Seq<u64>, c: u64, i: int)
    requires
        0 < ws.len() <= usize::MAX,
        forall|j: int| 0 <= j < ws.len() ==> spec_eligible(#[trigger] ws[j], ex),
        0 <= i < ws.len(),
        c + i <= u64::MAX,
    ensures
        spec_select_rr(ws, ex, (c + i) as u64) == Some(
            (((c + i) % ws.len() as int) % ws.len() as int) as usize,
        ),
        spec_select_rr(ws, ex, (c + i) as u64) == Some(((c + i) % ws.len() as int) as usize),
{
    let n = ws.len() as int;
    let c2 = (c + i) as u64;
    let idx0 = rr_index(c2, ws.len(), 0);
    lemma_mod_division_less_than_divisor(c2 as int, n);
    lemma_small_mod((c2 as int % n) as nat, ws.len());
    assert(idx0 == c2 as int % n);
    assert(spec_eligible(ws[idx0], ex));
    assert(rr_scan(ws, ex, c2, 0) == Some(idx0 as usize));
}

/// Round-robin fairness law, distinctness: within one turn of the pool the
/// walked positions never repeat, so over `n` consecutive selections each
/// of `n` eligible workers is returned exactly once.
pub proof fn lemma_round_robin_distinct(n: int, c: u64, i: int, j: int)
    requires
        n > 0,
        0 <= i < j < n,
        c + j <= u64::MAX,
    ensures
        (c + i) % n != (c + j) % n,
{
    vstd::arithmetic::div_mod::lemma_fundamental_div_mod(c + i, n);
    vstd::arithmetic::div_mod::lemma_fundamental_div_mod(c + j, n);
    let qi = (c + i) / n;
    let qj = (c + j) / n;
    lemma_mod_division_less_than_divisor(c + i, n);
    lemma_mod_division_less_than_divisor(c + j, n);
    if (c + i) % n == (c + j) % n {
        assert(n * qj - n * qi == j - i);
        assert(n * qj - n * qi == n * (qj - qi)) by (nonlinear_arith);
        assert(n * (qj - qi) == j - i);
        assert(qj - qi >= 1 ==> n * (qj - qi) >= n) by (nonlinear_arith)
            requires n > 0;
        assert(qj - qi <= 0 ==> n * (qj - qi) <= 0) by (nonlinear_arith)
            requires n > 0;
        assert(false);
    }
}

/// Selection completeness law: under every policy, a selection comes back
/// exactly when an eligible worker exists, and what comes back is the
/// position of an eligible worker. The dispatcher's retry loop therefore
/// only ever fails with no worker to blame or an exhausted budget.
pub proof fn lemma_policy_select_complete(
    ws: Seq<Worker>,
    config: PolicyConfig,
    counter: u64,
    rng: u64,
    p: Seq<u8>,
    ex: Seq<u64>,
)
    requires
        ws.len() <= usize::MAX,
    ensures
        (spec_policy_select(ws, config, counter, rng, p, ex) is Some) <==> exists|i: int|
            0 <= i < ws.len() && spec_eligible(#[trigger] ws[i], ex),
        match spec_policy_select(ws, config, counter, rng, p, ex) {
            Some(i) => i < ws.len() && spec_eligible(ws[i as int], ex),
            None => true,
        },
{
    lemma_eligible_idxs(ws, ex);
    let el = eligible_idxs(ws, ex);
    assert((el.len() > 0) <==> exists|i: int|
        0 <= i < ws.len() && spec_eligible(#[trigger] ws[i], ex)) by {
        if el.len() > 0 {
            assert(spec_eligible(ws[el[0] as int], ex));
        }
        if exists|i: int| 0 <= i < ws.len() && spec_eligible(#[trigger] ws[i], ex) {
            let i = choose|i: int| 0 <= i < ws.len() && spec_eligible(#[trigger] ws[i], ex);
            assert(el.contains(i as usize));
        }
    }
    match config.policy {
        PolicyChoice::Random => {
            if el.len() > 0 {
                let d = rng_next(rng);
                lemma_mod_division_less_than_divisor(d as int, el.len() as int);
            }
        },
        PolicyChoice::RoundRobin { .. } => {
            lemma_rr_complete(ws, ex, counter);
        },
        PolicyChoice::PowerOfTwo => {
            if el.len() >= 2 {
                lemma_p2c_lower_load(ws, ex, rng_next(rng), rng_next(rng_next(rng)));
            }
        },
        PolicyChoice::CacheAware { .. } => {
            if el.len() > 0 {
                lemma_cache_champion(ws, el, p);
                let champ = cache_champion(ws, el, p);
                if ws[champ as int].match_len(p) == 0 && el.len() >= 2 {
                    lemma_p2c_lower_load(ws, ex, rng_next(rng), rng_next(rng_next(rng)));
                }
            }
        },
    }
}

} // verus!
