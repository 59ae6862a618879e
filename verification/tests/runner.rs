use offline_sync::runner::{RunnerAction, RunnerEvent, RunnerState};
use offline_sync::sync::SyncError;

fn spawned(a: RunnerAction) -> u64 {
    match a {
        RunnerAction::SpawnLoop { generation } => generation,
        other => panic!("expected a spawn, got {:?}", other),
    }
}

#[test]
fn runner_starts_online_and_idle() {
    let r = RunnerState::new();
    assert!(r.is_online());
    assert!(!r.running());
}

#[test]
fn start_spawns_one_loop_and_a_second_start_does_nothing() {
    let mut r = RunnerState::new();
    let g = spawned(r.step(RunnerEvent::Start));
    assert!(r.running());
    assert!(matches!(r.step(RunnerEvent::Start), RunnerAction::Nothing));
    assert!(matches!(r.step(RunnerEvent::Tick { generation: g }), RunnerAction::RunRound));
}

#[test]
fn ticks_are_skipped_while_offline() {
    let mut r = RunnerState::new();
    let g = spawned(r.step(RunnerEvent::Start));
    assert!(matches!(r.step(RunnerEvent::SetOnline(false)), RunnerAction::Nothing));
    assert!(matches!(r.step(RunnerEvent::Tick { generation: g }), RunnerAction::Nothing));
    assert!(r.running());
}

#[test]
fn coming_back_online_syncs_at_once() {
    let mut r = RunnerState::new();
    assert!(matches!(r.step(RunnerEvent::SetOnline(true)), RunnerAction::Nothing));
    assert!(matches!(r.step(RunnerEvent::SetOnline(false)), RunnerAction::Nothing));
    assert!(matches!(r.step(RunnerEvent::SetOnline(false)), RunnerAction::Nothing));
    assert!(matches!(r.step(RunnerEvent::SetOnline(true)), RunnerAction::RunRound));
    assert!(r.is_online());
}

#[test]
fn manual_sync_fails_while_offline() {
    let mut r = RunnerState::new();
    assert!(matches!(r.step(RunnerEvent::SyncNow), RunnerAction::RunRound));
    r.step(RunnerEvent::SetOnline(false));
    match r.step(RunnerEvent::SyncNow) {
        RunnerAction::Fail(e) => {
            assert_eq!(e.to_string(), "offline (simulated)");
            assert!(matches!(e, SyncError::Transport { .. }));
        }
        other => panic!("expected a failure, got {:?}", other),
    }
}

#[test]
fn stop_ends_the_loop_and_a_restart_leaves_only_the_new_loop() {
    let mut r = RunnerState::new();
    let g1 = spawned(r.step(RunnerEvent::Start));
    assert!(matches!(r.step(RunnerEvent::Stop), RunnerAction::Nothing));
    assert!(!r.running());
    assert!(matches!(r.step(RunnerEvent::Tick { generation: g1 }), RunnerAction::ExitLoop));
    let g2 = spawned(r.step(RunnerEvent::Start));
    assert_ne!(g1, g2);
    assert!(matches!(r.step(RunnerEvent::Tick { generation: g1 }), RunnerAction::ExitLoop));
    assert!(matches!(r.step(RunnerEvent::Tick { generation: g2 }), RunnerAction::RunRound));
}

#[test]
fn quick_restarts_never_revive_an_old_loop() {
    let mut r = RunnerState::new();
    let first = spawned(r.step(RunnerEvent::Start));
    r.step(RunnerEvent::Stop);
    let second = spawned(r.step(RunnerEvent::Start));
    r.step(RunnerEvent::Stop);
    let third = spawned(r.step(RunnerEvent::Start));
    assert_eq!(second, first + 1);
    assert_eq!(third, first + 2);
    assert!(matches!(r.step(RunnerEvent::Tick { generation: first }), RunnerAction::ExitLoop));
    assert!(matches!(r.step(RunnerEvent::Tick { generation: second }), RunnerAction::ExitLoop));
    assert!(matches!(r.step(RunnerEvent::Tick { generation: third }), RunnerAction::RunRound));
}
