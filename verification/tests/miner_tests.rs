use goat_bot::miner::{BatchOutcome, MineRequest, MinerWorker, BATCH_SIZE};
use uuid::Uuid;

fn request(tick: u64) -> MineRequest {
    MineRequest {
        seed: "abc".to_string(),
        tick,
        resource_id: Uuid::from_u128(7),
        agent_id: Uuid::from_u128(9),
        target_bits: 12,
    }
}

#[test]
fn new_worker_is_idle() {
    let w = MinerWorker::new(2, 4);
    assert!(w.is_idle());
    assert_eq!(w.nonce, 2);
}

#[test]
fn idle_worker_finds_nothing() {
    let mut w = MinerWorker::new(1, 4);
    let calls = std::cell::Cell::new(0u32);
    let check = |_: &MineRequest, _: u64| {
        calls.set(calls.get() + 1);
        true
    };
    assert!(matches!(w.mine_batch(&check), BatchOutcome::Idle));
    assert_eq!(calls.get(), 0);
    assert_eq!(w.nonce, 1);
}

#[test]
fn worker_walks_its_stripe() {
    let mut w = MinerWorker::new(1, 4);
    w.assign(request(10));
    let tried = std::cell::RefCell::new(Vec::new());
    let check = |req: &MineRequest, n: u64| {
        assert_eq!(req.tick, 10);
        tried.borrow_mut().push(n);
        n == 13
    };
    let res = match w.mine_batch(&check) {
        BatchOutcome::Solved(res) => res,
        _ => panic!("nonce 13 is on the stripe of miner 1"),
    };
    assert_eq!(res.nonce, 13);
    assert_eq!(res.tick, 10);
    assert_eq!(res.resource_id, Uuid::from_u128(7));
    assert_eq!(*tried.borrow(), vec![1, 5, 9, 13]);
    assert!(w.is_idle());
    assert_eq!(w.nonce, 13);
}

#[test]
fn unsolved_batch_moves_the_stripe_on() {
    let mut w = MinerWorker::new(3, 4);
    w.assign(request(1));
    let count = std::cell::Cell::new(0u64);
    let check = |_: &MineRequest, _: u64| {
        count.set(count.get() + 1);
        false
    };
    assert!(matches!(w.mine_batch(&check), BatchOutcome::Unsolved));
    assert_eq!(count.get(), BATCH_SIZE);
    assert_eq!(w.nonce, 3 + BATCH_SIZE * 4);
    assert!(!w.is_idle());
}

#[test]
fn new_challenge_restarts_the_stripe() {
    let mut w = MinerWorker::new(2, 3);
    w.assign(request(1));
    let never = |_: &MineRequest, _: u64| false;
    assert!(matches!(w.mine_batch(&never), BatchOutcome::Unsolved));
    assert_ne!(w.nonce, 2);
    w.assign(request(2));
    assert_eq!(w.nonce, 2);
    assert_eq!(w.current.as_ref().map(|r| r.tick), Some(2));
}

#[test]
fn stripe_stops_at_the_end_of_u64() {
    let mut w = MinerWorker::new(0, 4);
    w.assign(request(1));
    // three nonces of the stripe are left: MAX - 10, MAX - 6, MAX - 2
    w.nonce = u64::MAX - 10;
    let tried = std::cell::RefCell::new(Vec::new());
    let check = |_: &MineRequest, n: u64| {
        tried.borrow_mut().push(n);
        false
    };
    assert!(matches!(w.mine_batch(&check), BatchOutcome::StripeEnd));
    assert_eq!(*tried.borrow(), vec![u64::MAX - 10, u64::MAX - 6, u64::MAX - 2]);
    assert_eq!(w.nonce, u64::MAX - 2);
    assert!(!w.is_idle());
}

#[test]
fn last_nonce_of_u64_can_solve() {
    let mut w = MinerWorker::new(0, 4);
    w.assign(request(1));
    w.nonce = u64::MAX - 6;
    let check = |_: &MineRequest, n: u64| n == u64::MAX - 2;
    match w.mine_batch(&check) {
        BatchOutcome::Solved(r) => assert_eq!(r.nonce, u64::MAX - 2),
        _ => panic!("expected a solution"),
    }
}

#[test]
fn requests_and_results_clone() {
    let r = request(4);
    let c = r.clone();
    assert_eq!((c.seed.as_str(), c.tick, c.resource_id, c.agent_id, c.target_bits), ("abc", 4, Uuid::from_u128(7), Uuid::from_u128(9), 12));
}

#[test]
fn miners_of_one_pool_try_disjoint_nonces() {
    let total = 3u64;
    let mut all: Vec<Vec<u64>> = Vec::new();
    for t in 0..total {
        let mut w = MinerWorker::new(t, total);
        w.assign(request(1));
        let tried = std::cell::RefCell::new(Vec::new());
        let check = |_: &MineRequest, n: u64| {
            tried.borrow_mut().push(n);
            false
        };
        assert!(matches!(w.mine_batch(&check), BatchOutcome::Unsolved));
        assert!(matches!(w.mine_batch(&check), BatchOutcome::Unsolved));
        all.push(tried.into_inner());
    }
    let mut seen = std::collections::HashSet::new();
    for a in 0..3 {
        assert_eq!(all[a].len() as u64, 2 * BATCH_SIZE);
        assert!(all[a].iter().all(|n| n % total == a as u64));
        // the two batches scan the stripe without gap
        assert!(all[a].iter().enumerate().all(|(k, n)| *n == a as u64 + k as u64 * total));
        for n in &all[a] {
            assert!(seen.insert(*n), "nonce {} tried twice", n);
        }
    }
}

#[test]
fn the_miner_whose_stripe_holds_the_answer_finds_it() {
    let total = 4u64;
    let answer = 10u64;
    let mut finders = Vec::new();
    for t in 0..total {
        let mut w = MinerWorker::new(t, total);
        w.assign(request(1));
        let check = |_: &MineRequest, n: u64| n == answer;
        if let BatchOutcome::Solved(r) = w.mine_batch(&check) {
            finders.push((t, r.nonce));
        }
    }
    assert_eq!(finders, vec![(2, 10)]);
}
