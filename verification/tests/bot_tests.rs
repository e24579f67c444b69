use goat_bot::bot::{move_command, submission, BotLoop, ClientCommand, LoopStep, ServerEvent};
use goat_bot::miner::MineResult;
use uuid::Uuid;

fn challenge(tick: u64) -> ServerEvent {
    ServerEvent::PowChallenge {
        tick,
        seed: format!("seed{}", tick),
        resource_id: Uuid::from_u128(tick as u128),
        target_bits: 8,
    }
}

#[test]
fn newer_challenge_goes_to_miners() {
    let agent = Uuid::from_u128(42);
    let mut b = BotLoop::new(agent);
    match b.on_event(challenge(3)) {
        LoopStep::Mine(req) => {
            assert_eq!(req.tick, 3);
            assert_eq!(req.seed, "seed3");
            assert_eq!(req.resource_id, Uuid::from_u128(3));
            assert_eq!(req.agent_id, agent);
            assert_eq!(req.target_bits, 8);
        }
        _ => panic!("expected a mining step"),
    }
    assert_eq!(b.last_tick, 3);
}

#[test]
fn stale_challenges_are_dropped() {
    let mut b = BotLoop::new(Uuid::from_u128(1));
    assert!(matches!(b.on_event(challenge(5)), LoopStep::Mine(_)));
    assert!(matches!(b.on_event(challenge(5)), LoopStep::Continue));
    assert!(matches!(b.on_event(challenge(4)), LoopStep::Continue));
    assert_eq!(b.last_tick, 5);
    assert!(matches!(b.on_event(challenge(6)), LoopStep::Mine(_)));
    assert_eq!(b.last_tick, 6);
}

#[test]
fn challenge_at_tick_zero_is_dropped() {
    let mut b = BotLoop::new(Uuid::from_u128(1));
    assert!(matches!(b.on_event(challenge(0)), LoopStep::Continue));
    assert_eq!(b.last_tick, 0);
}

#[test]
fn win_stops_the_loop() {
    let mut b = BotLoop::new(Uuid::from_u128(1));
    match b.on_event(ServerEvent::Win { team: "goats".to_string() }) {
        LoopStep::Stop { team } => assert_eq!(team, "goats"),
        _ => panic!("expected a stop"),
    }
    assert!(matches!(b.on_event(ServerEvent::Other), LoopStep::Continue));
}

#[test]
fn solved_challenge_is_submitted() {
    let r = MineResult { tick: 8, resource_id: Uuid::from_u128(5), nonce: 77 };
    match submission(r) {
        ClientCommand::PowSubmit { tick, resource_id, nonce } => {
            assert_eq!((tick, resource_id, nonce), (8, Uuid::from_u128(5), 77));
        }
        _ => panic!("expected a submission"),
    }
}

#[test]
fn moves_become_commands() {
    assert!(move_command(None).is_none());
    match move_command(Some((-1, 0))) {
        Some(ClientCommand::Move { dx, dy }) => assert_eq!((dx, dy), (-1, 0)),
        _ => panic!("expected a move"),
    }
}
