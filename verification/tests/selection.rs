use llm_router::policy::{PolicyChoice, PolicyConfig};
use llm_router::pool::PoolError;
use llm_router::router::Router;

fn config(policy: PolicyChoice) -> PolicyConfig {
    PolicyConfig {
        policy,
        retry_attempts: 3,
        timeout_ms: 5_000,
        health_check_interval_ms: 10_000,
        failure_threshold: 3,
        success_threshold: 2,
        seed: 42,
    }
}

fn urls(n: usize) -> Vec<String> {
    (0..n).map(|i| format!("http://worker-{}:8000", i)).collect()
}

#[test]
fn get_first_none_on_empty_pool() {
    let router = Router::new(Vec::new(), config(PolicyChoice::RoundRobin { start: 0 }));
    assert!(router.get_first().is_none());
}

#[test]
fn get_first_returns_first_in_insertion_order() {
    let router = Router::new(urls(3), config(PolicyChoice::RoundRobin { start: 0 }));
    assert_eq!(router.get_first(), Some("http://worker-0:8000".to_string()));
}

#[test]
fn get_first_ignores_health() {
    let mut router = Router::new(urls(2), config(PolicyChoice::RoundRobin { start: 0 }));
    assert!(router.mark_health(0, false));
    assert_eq!(router.get_first(), Some("http://worker-0:8000".to_string()));
}

#[test]
fn get_first_none_after_all_removed() {
    let mut router = Router::new(urls(2), config(PolicyChoice::RoundRobin { start: 0 }));
    assert_eq!(router.remove_worker(0), Ok(()));
    assert_eq!(router.remove_worker(1), Ok(()));
    assert!(router.get_first().is_none());
}

#[test]
fn round_robin_cycles_in_insertion_order() {
    let mut router = Router::new(urls(3), config(PolicyChoice::RoundRobin { start: 0 }));
    let prompt = Vec::new();
    let none_excluded: Vec<u64> = Vec::new();
    let mut seen = Vec::new();
    for _ in 0..6 {
        seen.push(router.select(&prompt, &none_excluded).unwrap());
    }
    assert_eq!(seen, vec![0, 1, 2, 0, 1, 2]);
}

#[test]
fn round_robin_starts_at_counter_position() {
    let mut router = Router::new(urls(3), config(PolicyChoice::RoundRobin { start: 2 }));
    let prompt = Vec::new();
    let none_excluded: Vec<u64> = Vec::new();
    assert_eq!(router.select(&prompt, &none_excluded), Some(2));
    assert_eq!(router.select(&prompt, &none_excluded), Some(0));
}

#[test]
fn round_robin_skips_unhealthy_and_excluded() {
    let mut router = Router::new(urls(3), config(PolicyChoice::RoundRobin { start: 0 }));
    assert!(router.mark_health(1, false));
    let prompt = Vec::new();
    assert_eq!(router.select(&prompt, &Vec::new()), Some(0));
    assert_eq!(router.select(&prompt, &Vec::new()), Some(2));
    assert_eq!(router.select(&prompt, &vec![0, 2]), None);
}

#[test]
fn random_with_single_healthy_worker_always_selects_it() {
    let mut router = Router::new(urls(2), config(PolicyChoice::Random));
    assert!(router.mark_health(1, false));
    let prompt = Vec::new();
    let none_excluded: Vec<u64> = Vec::new();
    for _ in 0..10 {
        assert_eq!(router.select(&prompt, &none_excluded), Some(0));
    }
}

#[test]
fn random_returns_none_without_eligible_workers() {
    let mut router = Router::new(urls(1), config(PolicyChoice::Random));
    assert!(router.mark_health(0, false));
    assert_eq!(router.select(&Vec::new(), &Vec::new()), None);
}

#[test]
fn power_of_two_prefers_less_loaded_of_two() {
    let mut router = Router::new(urls(2), config(PolicyChoice::PowerOfTwo));
    // Load worker 0 with three requests in flight; worker 1 stays idle.
    for _ in 0..3 {
        assert!(router.pool.incr_inflight(0));
    }
    let prompt = Vec::new();
    let none_excluded: Vec<u64> = Vec::new();
    for _ in 0..10 {
        assert_eq!(router.select(&prompt, &none_excluded), Some(1));
    }
}

#[test]
fn power_of_two_single_eligible_short_circuits() {
    let mut router = Router::new(urls(3), config(PolicyChoice::PowerOfTwo));
    assert!(router.mark_health(0, false));
    assert!(router.mark_health(2, false));
    assert_eq!(router.select(&Vec::new(), &Vec::new()), Some(1));
}

#[test]
fn duplicate_url_rejected() {
    let mut router = Router::new(urls(2), config(PolicyChoice::Random));
    assert_eq!(
        router.add_worker("http://worker-0:8000".to_string()),
        Err(PoolError::DuplicateWorker)
    );
    assert_eq!(router.add_worker("http://worker-9:8000".to_string()), Ok(2));
}

#[test]
fn duplicate_urls_in_initial_list_collapse() {
    let list = vec![
        "http://a:1".to_string(),
        "http://b:1".to_string(),
        "http://a:1".to_string(),
    ];
    let router = Router::new(list, config(PolicyChoice::Random));
    let snap = router.pool.snapshot();
    assert_eq!(snap.len(), 2);
    assert_eq!(snap[0].url, "http://a:1");
    assert_eq!(snap[1].url, "http://b:1");
}

#[test]
fn remove_unknown_id_reports_not_found() {
    let mut router = Router::new(urls(1), config(PolicyChoice::Random));
    assert_eq!(router.remove_worker(7), Err(PoolError::NotFound));
}

#[test]
fn removed_worker_leaves_selection_immediately() {
    let mut router = Router::new(urls(2), config(PolicyChoice::RoundRobin { start: 0 }));
    assert_eq!(router.remove_worker(0), Ok(()));
    let prompt = Vec::new();
    for _ in 0..4 {
        assert_eq!(router.select(&prompt, &Vec::new()), Some(1));
    }
}
