use llm_router::dispatch::{DispatchStep, ForwardOutcome, RouteKind};
use llm_router::policy::{PolicyChoice, PolicyConfig};
use llm_router::router::Router;

fn config(policy: PolicyChoice, failure_threshold: u64, success_threshold: u64) -> PolicyConfig {
    PolicyConfig {
        policy,
        retry_attempts: 3,
        timeout_ms: 5_000,
        health_check_interval_ms: 10_000,
        failure_threshold,
        success_threshold,
        seed: 99,
    }
}

fn urls(n: usize) -> Vec<String> {
    (0..n).map(|i| format!("http://worker-{}:8000", i)).collect()
}

#[test]
fn hysteresis_downward_needs_consecutive_failures() {
    let mut router = Router::new(urls(1), config(PolicyChoice::RoundRobin { start: 0 }, 3, 2));
    assert!(router.record_probe(0, false));
    assert!(router.record_probe(0, false));
    // Two of three failures: still healthy, still selectable.
    assert!(router.pool.workers[0].healthy);
    assert_eq!(router.select(&Vec::new(), &Vec::new()), Some(0));
    assert!(router.record_probe(0, false));
    // Third consecutive failure crosses the threshold.
    assert!(!router.pool.workers[0].healthy);
    assert_eq!(router.select(&Vec::new(), &Vec::new()), None);
}

#[test]
fn intervening_success_resets_the_failure_streak() {
    let mut router = Router::new(urls(1), config(PolicyChoice::RoundRobin { start: 0 }, 3, 2));
    assert!(router.record_probe(0, false));
    assert!(router.record_probe(0, false));
    assert!(router.record_probe(0, true));
    assert!(router.record_probe(0, false));
    assert!(router.record_probe(0, false));
    // Never three in a row: the worker never went unhealthy.
    assert!(router.pool.workers[0].healthy);
}

#[test]
fn recovery_needs_consecutive_successes_not_one() {
    let mut router = Router::new(urls(1), config(PolicyChoice::RoundRobin { start: 0 }, 2, 2));
    assert!(router.record_probe(0, false));
    assert!(router.record_probe(0, false));
    assert!(!router.pool.workers[0].healthy);
    // A single success is not enough.
    assert!(router.record_probe(0, true));
    assert!(!router.pool.workers[0].healthy);
    assert_eq!(router.select(&Vec::new(), &Vec::new()), None);
    // The second consecutive success recovers the worker.
    assert!(router.record_probe(0, true));
    assert!(router.pool.workers[0].healthy);
    assert_eq!(router.select(&Vec::new(), &Vec::new()), Some(0));
}

#[test]
fn probe_on_unknown_worker_reports_absence() {
    let mut router = Router::new(urls(1), config(PolicyChoice::RoundRobin { start: 0 }, 2, 2));
    assert!(!router.record_probe(9, false));
}

fn cache_config(max_tree_nodes: usize) -> PolicyConfig {
    config(
        PolicyChoice::CacheAware { max_tree_nodes, eviction_interval_ms: 60_000 },
        3,
        2,
    )
}

/// One successful dispatch of `prompt`, asserting it lands on `expect`.
fn dispatch_expect(router: &mut Router, prompt: &[u8], expect: u64) {
    let (mut d, step) = router.dispatch_start(RouteKind::Generate, prompt.to_vec());
    match step {
        DispatchStep::Forward { worker_id, .. } => assert_eq!(worker_id, expect),
        _ => panic!("expected a forward"),
    }
    let step = router.dispatch_report(&mut d, ForwardOutcome::Replied { status: 200 });
    assert!(matches!(step, DispatchStep::Respond { status: 200 }));
}

#[test]
fn cache_aware_routes_prefix_extension_to_the_same_worker() {
    let mut router = Router::new(urls(3), cache_config(16));
    // Seed worker 2's affinity index directly with a served prompt.
    assert!(router.pool.note_prompt(2, &b"Hello world".to_vec(), 16));
    // A request extending that prompt routes to worker 2, and its own
    // prompt is recorded there in turn.
    dispatch_expect(&mut router, b"Hello world, how are you", 2);
    assert_eq!(router.pool.workers[2].entries.len(), 2);
    // Still worker 2 for a further extension, while it stays eligible.
    dispatch_expect(&mut router, b"Hello world, how are you today", 2);
}

#[test]
fn cache_aware_ties_break_by_lower_inflight() {
    let mut router = Router::new(urls(2), cache_config(16));
    assert!(router.pool.note_prompt(0, &b"shared prefix".to_vec(), 16));
    assert!(router.pool.note_prompt(1, &b"shared prefix".to_vec(), 16));
    assert!(router.pool.incr_inflight(0));
    // Equal match lengths: the less loaded worker 1 wins the tie.
    dispatch_expect(&mut router, b"shared prefix and more", 1);
}

#[test]
fn cache_aware_ineligible_worker_loses_its_affinity_claim() {
    let mut router = Router::new(urls(2), cache_config(16));
    assert!(router.pool.note_prompt(0, &b"Hello world".to_vec(), 16));
    assert!(router.mark_health(0, false));
    // Worker 0 holds the prefix but is unhealthy: the dispatch goes
    // elsewhere (power-of-two fallback over the one eligible worker).
    dispatch_expect(&mut router, b"Hello world again", 1);
}

#[test]
fn affinity_index_evicts_least_recently_used_at_budget() {
    let mut router = Router::new(urls(1), cache_config(2));
    assert!(router.pool.note_prompt(0, &b"alpha".to_vec(), 2));
    assert!(router.pool.note_prompt(0, &b"beta".to_vec(), 2));
    assert!(router.pool.note_prompt(0, &b"gamma".to_vec(), 2));
    let entries: Vec<&[u8]> = router.pool.workers[0].entries.iter().map(|e| e.as_slice()).collect();
    assert_eq!(entries, vec![b"beta".as_slice(), b"gamma".as_slice()]);
}

#[test]
fn affinity_index_refreshes_a_reinserted_prompt() {
    let mut router = Router::new(urls(1), cache_config(2));
    assert!(router.pool.note_prompt(0, &b"alpha".to_vec(), 2));
    assert!(router.pool.note_prompt(0, &b"beta".to_vec(), 2));
    // Re-serving alpha makes it most recent, so beta is the next evicted.
    assert!(router.pool.note_prompt(0, &b"alpha".to_vec(), 2));
    assert!(router.pool.note_prompt(0, &b"gamma".to_vec(), 2));
    let entries: Vec<&[u8]> = router.pool.workers[0].entries.iter().map(|e| e.as_slice()).collect();
    assert_eq!(entries, vec![b"alpha".as_slice(), b"gamma".as_slice()]);
}

#[test]
fn cold_start_falls_back_and_then_sticks() {
    let mut router = Router::new(urls(2), cache_config(16));
    // No index holds anything: the first dispatch lands somewhere.
    let (mut d, step) = router.dispatch_start(RouteKind::Generate, b"brand new prompt".to_vec());
    let first = match step {
        DispatchStep::Forward { worker_id, .. } => worker_id,
        _ => panic!("expected a forward"),
    };
    let step = router.dispatch_report(&mut d, ForwardOutcome::Replied { status: 200 });
    assert!(matches!(step, DispatchStep::Respond { status: 200 }));
    // The follow-up with the same prefix sticks to that worker.
    dispatch_expect(&mut router, b"brand new prompt, continued", first);
}
