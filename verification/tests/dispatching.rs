use llm_router::dispatch::{Dispatch, DispatchStep, ForwardOutcome, RouteKind, RouterError};
use llm_router::policy::{PolicyChoice, PolicyConfig};
use llm_router::router::Router;

fn config(policy: PolicyChoice, retry_attempts: u64) -> PolicyConfig {
    PolicyConfig {
        policy,
        retry_attempts,
        timeout_ms: 5_000,
        health_check_interval_ms: 10_000,
        failure_threshold: 3,
        success_threshold: 2,
        seed: 7,
    }
}

fn urls(n: usize) -> Vec<String> {
    (0..n).map(|i| format!("http://worker-{}:8000", i)).collect()
}

/// Drive one dispatch to its end: worker ids in `failing` answer with a
/// transport error, every other worker replies 200. Returns the terminal
/// step and the ids forwarded to, in order.
fn run_dispatch(router: &mut Router, prompt: &[u8], failing: &[u64]) -> (DispatchStep, Vec<u64>) {
    let mut forwarded = Vec::new();
    let (mut d, mut step) = router.dispatch_start(RouteKind::Generate, prompt.to_vec());
    loop {
        match step {
            DispatchStep::Forward { worker_id, .. } => {
                forwarded.push(worker_id);
                let outcome = if failing.contains(&worker_id) {
                    ForwardOutcome::TransportError
                } else {
                    ForwardOutcome::Replied { status: 200 }
                };
                step = router.dispatch_report(&mut d, outcome);
            }
            terminal => return (terminal, forwarded),
        }
    }
}

#[test]
fn dispatch_succeeds_on_first_healthy_worker() {
    let mut router = Router::new(urls(3), config(PolicyChoice::RoundRobin { start: 0 }, 3));
    let (step, forwarded) = run_dispatch(&mut router, b"hi", &[]);
    assert!(matches!(step, DispatchStep::Respond { status: 200 }));
    assert_eq!(forwarded, vec![0]);
}

#[test]
fn one_failing_worker_is_excluded_within_the_attempt_loop() {
    // Three workers, exactly one failing, budget >= 2: dispatches never fail.
    let mut router = Router::new(urls(3), config(PolicyChoice::RoundRobin { start: 0 }, 2));
    for _ in 0..9 {
        let (step, forwarded) = run_dispatch(&mut router, b"hi", &[1]);
        assert!(matches!(step, DispatchStep::Respond { status: 200 }));
        assert!(forwarded.len() <= 2);
        assert!(*forwarded.last().unwrap() != 1);
    }
}

#[test]
fn all_workers_failing_exhausts_exactly_the_budget() {
    let mut router = Router::new(urls(3), config(PolicyChoice::RoundRobin { start: 0 }, 3));
    let (step, forwarded) = run_dispatch(&mut router, b"hi", &[0, 1, 2]);
    assert!(matches!(
        step,
        DispatchStep::Fail { error: RouterError::WorkerUnreachable }
    ));
    assert_eq!(forwarded.len(), 3);
}

#[test]
fn no_healthy_workers_fails_immediately_without_forwarding() {
    let mut router = Router::new(urls(2), config(PolicyChoice::RoundRobin { start: 0 }, 3));
    assert!(router.mark_health(0, false));
    assert!(router.mark_health(1, false));
    let (step, forwarded) = run_dispatch(&mut router, b"hi", &[]);
    assert!(matches!(
        step,
        DispatchStep::Fail { error: RouterError::NoHealthyWorkers }
    ));
    assert_eq!(forwarded.len(), 0);
}

#[test]
fn client_error_is_relayed_verbatim_and_not_retried() {
    let mut router = Router::new(urls(3), config(PolicyChoice::RoundRobin { start: 0 }, 3));
    let (mut d, step) = router.dispatch_start(RouteKind::Generate, b"hi".to_vec());
    let first = match step {
        DispatchStep::Forward { worker_id, .. } => worker_id,
        _ => panic!("expected a forward"),
    };
    assert_eq!(first, 0);
    let step = router.dispatch_report(&mut d, ForwardOutcome::Replied { status: 404 });
    assert!(matches!(step, DispatchStep::Respond { status: 404 }));
}

#[test]
fn server_error_is_retried_like_transport_failure() {
    let mut router = Router::new(urls(2), config(PolicyChoice::RoundRobin { start: 0 }, 2));
    let (mut d, step) = router.dispatch_start(RouteKind::Generate, b"hi".to_vec());
    assert!(matches!(step, DispatchStep::Forward { worker_id: 0, .. }));
    let step = router.dispatch_report(&mut d, ForwardOutcome::Replied { status: 503 });
    match step {
        DispatchStep::Forward { worker_id, .. } => assert_eq!(worker_id, 1),
        other => panic!("expected a retry forward, got {:?}", other),
    }
    let step = router.dispatch_report(&mut d, ForwardOutcome::Replied { status: 200 });
    assert!(matches!(step, DispatchStep::Respond { status: 200 }));
}

#[test]
fn budget_exhaustion_on_server_errors_reports_server_error() {
    let mut router = Router::new(urls(1), config(PolicyChoice::RoundRobin { start: 0 }, 1));
    let (mut d, step) = router.dispatch_start(RouteKind::Generate, b"hi".to_vec());
    assert!(matches!(step, DispatchStep::Forward { worker_id: 0, .. }));
    let step = router.dispatch_report(&mut d, ForwardOutcome::Replied { status: 500 });
    assert!(matches!(
        step,
        DispatchStep::Fail { error: RouterError::WorkerServerError }
    ));
}

#[test]
fn inflight_counts_restore_after_dispatches() {
    let mut router = Router::new(urls(3), config(PolicyChoice::RoundRobin { start: 0 }, 3));
    // A standing load unrelated to the dispatches below.
    assert!(router.pool.incr_inflight(2));
    let before: Vec<u64> = router.pool.workers.iter().map(|w| w.inflight).collect();
    for _ in 0..5 {
        let (step, _) = run_dispatch(&mut router, b"hi", &[0]);
        assert!(matches!(step, DispatchStep::Respond { .. }));
    }
    let (step, _) = run_dispatch(&mut router, b"hi", &[0, 1, 2]);
    assert!(matches!(step, DispatchStep::Fail { .. }));
    let after: Vec<u64> = router.pool.workers.iter().map(|w| w.inflight).collect();
    assert_eq!(before, after);
}

#[test]
fn inflight_rises_while_a_forward_is_outstanding() {
    let mut router = Router::new(urls(1), config(PolicyChoice::RoundRobin { start: 0 }, 1));
    let (mut d, step) = router.dispatch_start(RouteKind::Generate, b"hi".to_vec());
    assert!(matches!(step, DispatchStep::Forward { worker_id: 0, .. }));
    assert_eq!(router.pool.workers[0].inflight, 1);
    let step = router.dispatch_report(&mut d, ForwardOutcome::Replied { status: 200 });
    assert!(matches!(step, DispatchStep::Respond { status: 200 }));
    assert_eq!(router.pool.workers[0].inflight, 0);
}

#[test]
fn removal_during_flight_drains_then_frees() {
    let mut router = Router::new(urls(2), config(PolicyChoice::RoundRobin { start: 0 }, 1));
    let (mut d, step) = router.dispatch_start(RouteKind::Generate, b"hi".to_vec());
    assert!(matches!(step, DispatchStep::Forward { worker_id: 0, .. }));
    // Administrative removal while the forward is outstanding: the worker
    // drains instead of vanishing, and leaves future selection at once.
    assert_eq!(router.remove_worker(0), Ok(()));
    assert_eq!(router.pool.workers.len(), 2);
    assert_eq!(router.select(&Vec::new(), &Vec::new()), Some(1));
    let step = router.dispatch_report(&mut d, ForwardOutcome::Replied { status: 200 });
    assert!(matches!(step, DispatchStep::Respond { status: 200 }));
    // Drained to zero: the record is gone now.
    assert_eq!(router.pool.workers.len(), 1);
    assert_eq!(router.pool.workers[0].id, 1);
}

#[test]
fn end_to_end_round_robin_four_generate_calls() {
    // Pool [A, B, C] under round-robin: four calls route to A, B, C, A.
    let mut router = Router::new(urls(3), config(PolicyChoice::RoundRobin { start: 0 }, 3));
    let mut routed = Vec::new();
    for _ in 0..4 {
        let (step, forwarded) = run_dispatch(&mut router, b"generate", &[]);
        assert!(matches!(step, DispatchStep::Respond { status: 200 }));
        routed.extend(forwarded);
    }
    assert_eq!(routed, vec![0, 1, 2, 0]);
}

#[test]
fn end_to_end_random_avoids_unhealthy_worker() {
    // Pool [A, B] under random with B unhealthy: every selection returns A.
    let mut router = Router::new(urls(2), config(PolicyChoice::Random, 3));
    assert!(router.mark_health(1, false));
    for _ in 0..10 {
        let (step, forwarded) = run_dispatch(&mut router, b"generate", &[]);
        assert!(matches!(step, DispatchStep::Respond { status: 200 }));
        assert_eq!(forwarded, vec![0]);
    }
}

#[test]
fn dispatch_state_exposes_budget() {
    let mut router = Router::new(urls(1), config(PolicyChoice::RoundRobin { start: 0 }, 4));
    let (d, _): (Dispatch, DispatchStep) = router.dispatch_start(RouteKind::Generate, b"hi".to_vec());
    assert_eq!(d.attempts_left, 4);
}

#[test]
fn route_kinds_carry_their_path_suffixes() {
    assert_eq!(RouteKind::Generate.path_suffix(), "generate");
    assert_eq!(RouteKind::ChatCompletions.path_suffix(), "v1/chat/completions");
    assert_eq!(RouteKind::Completions.path_suffix(), "v1/completions");
    assert_eq!(RouteKind::Passthrough.path_suffix(), "");
}
