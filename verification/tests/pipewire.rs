use aproman::pipewire::{self, NodeErrorAction, RestartState};

#[test]
fn first_node_error_restarts_then_cooldown() {
    let mut state = RestartState::new();
    assert_eq!(NodeErrorAction::Restart, state.handle_node_error());
    assert_eq!(NodeErrorAction::WithinCooldown, state.handle_node_error());
}

#[test]
fn restart_due_after_cooldown() {
    assert!(pipewire::restart_due(None));
    assert!(!pipewire::restart_due(Some(29_999_999_999)));
    assert!(pipewire::restart_due(Some(30_000_000_000)));
}

#[test]
fn restart_commands_follow_the_service_manager() {
    let systemd = pipewire::restart_pipewire(true, true);
    assert_eq!(2, systemd.len());
    assert_eq!(vec!["systemctl", "--user", "restart", "pipewire.service"], systemd[0].args);
    assert!(systemd[1].strict);
    let openrc = pipewire::restart_pipewire(false, true);
    assert_eq!(4, openrc.len());
    assert_eq!(vec!["rc-service", "pipewire", "restart"], openrc[1].args);
    assert!(!openrc[3].strict);
    assert!(pipewire::restart_pipewire(false, false).is_empty());
}

#[test]
fn record_node_error_follows_the_cooldown() {
    let now = std::time::Instant::now();
    let mut state = RestartState::new();
    assert_eq!(NodeErrorAction::Restart, state.record_node_error(None, now));
    assert_eq!(
        NodeErrorAction::WithinCooldown,
        state.record_node_error(Some(29_999_999_999), now)
    );
    assert_eq!(
        NodeErrorAction::Restart,
        state.record_node_error(Some(30_000_000_000), now)
    );
}
