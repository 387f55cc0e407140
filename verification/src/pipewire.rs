//! Restarting PipeWire when a node fails, at most once per cooldown period,
//! through whichever service manager the system has.
use vstd::prelude::*;
use std::time::Instant;

verus! {

/// `std::time::Instant`, a point in time of the monotonic clock, declared so
/// that the restart state can hold one; Verus sees nothing inside it.
#[verifier::external_type_specification]
#[verifier::external_body]
pub struct ExInstant(Instant);

/// Seconds during which a restart suppresses further restarts.
pub const RESTART_COOLDOWN_SECS: u64 = 30;

/// The cooldown in nanoseconds.
pub const RESTART_COOLDOWN_NANOS: u128 = 30_000_000_000;

/// The current instant (`Instant::now`); nothing is stated of it.
#[verifier::external_body]
fn clock_now() -> Instant {
    Instant::now()
}

/// Nanoseconds elapsed since `since` (`Instant::elapsed`, as nanoseconds);
/// nothing is stated of it.
#[verifier::external_body]
fn nanos_since(since: &Instant) -> u128 {
    since.elapsed().as_nanos()
}

/// The cooldown has run out, given the nanoseconds since the last restart
/// (none when there was none).
pub open spec fn cooldown_over(elapsed_nanos: Option<u128>) -> bool {
    match elapsed_nanos {
        None => true,
        Some(n) => n >= RESTART_COOLDOWN_NANOS,
    }
}

/// Whether a node error calls for a restart, given the nanoseconds since
/// the last restart (none when there was none): only when the cooldown has
/// run out.
pub fn restart_due(elapsed_nanos: Option<u128>) -> (r: bool)
    ensures
        r == cooldown_over(elapsed_nanos),
{
    match elapsed_nanos {
        None => true,
        Some(n) => n >= RESTART_COOLDOWN_NANOS,
    }
}

/// What to do about a node error.
#[derive(Debug, Clone, Copy, PartialEq, Eq, Structural)]
pub enum NodeErrorAction {
    /// Restart PipeWire now.
    Restart,
    /// Do nothing: the last restart is too recent.
    WithinCooldown,
}

/// When PipeWire was last restarted.
#[derive(Debug)]
pub struct RestartState {
    last_restart: Option<Instant>,
}

impl RestartState {
    /// PipeWire has been restarted since the daemon started.
    pub closed spec fn has_restarted(&self) -> bool {
        self.last_restart is Some
    }

    /// The state before any restart.
    pub fn new() -> (s: RestartState)
        ensures
            !s.has_restarted(),
    {
        RestartState { last_restart: None }
    }

    /// When PipeWire was last restarted, if it was.
    pub closed spec fn last_restart_at(&self) -> Option<Instant> {
        self.last_restart
    }

    /// Handles a node error given `elapsed`, the nanoseconds since the last
    /// restart as the clock gives them (none when there was no restart), and
    /// `now`: PipeWire is restarted exactly when `cooldown_over(elapsed)`, the
    /// restart being recorded as happening at `now`; otherwise nothing
    /// changes.
    pub fn record_node_error(&mut self, elapsed: Option<u128>, now: Instant) -> (r: NodeErrorAction)
        requires
            old(self).has_restarted() <==> elapsed is Some,
        ensures
            r == NodeErrorAction::Restart <==> cooldown_over(elapsed),
            r == NodeErrorAction::Restart ==> final(self).last_restart_at() == Some(now),
            r == NodeErrorAction::WithinCooldown ==> *final(self) == *old(self),
    {
        if !restart_due(elapsed) {
            return NodeErrorAction::WithinCooldown;
        }
        self.last_restart = Some(now);
        NodeErrorAction::Restart
    }

    /// Decides whether a node error restarts PipeWire: always when there was
    /// no restart yet, otherwise only once the cooldown since the last one
    /// has run out (`record_node_error` on the time the clock reports as
    /// elapsed).  A restart is recorded as happening now.
    pub fn handle_node_error(&mut self) -> (r: NodeErrorAction)
        ensures
            !old(self).has_restarted() ==> r == NodeErrorAction::Restart,
            exists|elapsed: Option<u128>|
                {
                    &&& (elapsed is Some <==> old(self).has_restarted())
                    &&& (r == NodeErrorAction::Restart <==> cooldown_over(elapsed))
                },
            r == NodeErrorAction::Restart ==> final(self).has_restarted(),
            r == NodeErrorAction::WithinCooldown ==> old(self).has_restarted() && *final(self)
                == *old(self),
    {
        let elapsed = match &self.last_restart {
            Some(t) => Some(nanos_since(t)),
            None => None,
        };
        let now = clock_now();
        self.record_node_error(elapsed, now)
    }
}

impl Default for RestartState {
    fn default() -> (s: RestartState)
        ensures
            !s.has_restarted(),
    {
        RestartState::new()
    }
}

/// A service manager command that restarts part of PipeWire.
#[derive(Debug, Clone, PartialEq, Eq)]
pub struct ServiceCommand {
    /// The program and its arguments.
    pub args: Vec<String>,
    /// A failure ends the restart with an error; otherwise it is only
    /// warned about and the next command runs.
    pub strict: bool,
}

/// A command's words.
pub open spec fn words(c: ServiceCommand) -> Seq<Seq<char>> {
    c.args@.map_values(|s: String| s@)
}

/// The commands that restart PipeWire, given which service managers are
/// installed.
pub open spec fn restart_commands(systemctl: bool, rc_service: bool) -> Seq<(Seq<Seq<char>>, bool)> {
    if systemctl {
        seq![
            (seq!["systemctl"@, "--user"@, "restart"@, "pipewire.service"@], true),
            (seq!["systemctl"@, "--user"@, "restart"@, "pipewire-pulse.service"@], true),
        ]
    } else if rc_service {
        seq![
            (seq!["rc-service"@, "--user"@, "pipewire"@, "restart"@], false),
            (seq!["rc-service"@, "pipewire"@, "restart"@], false),
            (seq!["rc-service"@, "--user"@, "pipewire-pulse"@, "restart"@], false),
            (seq!["rc-service"@, "pipewire-pulse"@, "restart"@], false),
        ]
    } else {
        seq![]
    }
}

/// A command of three words.
fn command3(a: &str, b: &str, c: &str, strict: bool) -> (r: ServiceCommand)
    ensures
        words(r) == seq![a@, b@, c@],
        r.strict == strict,
{
    let mut args: Vec<String> = Vec::new();
    args.push(a.to_owned());
    args.push(b.to_owned());
    args.push(c.to_owned());
    let r = ServiceCommand { args, strict };
    assert(words(r) =~= seq![a@, b@, c@]);
    r
}

/// A command of four words.
fn command4(a: &str, b: &str, c: &str, d: &str, strict: bool) -> (r: ServiceCommand)
    ensures
        words(r) == seq![a@, b@, c@, d@],
        r.strict == strict,
{
    let mut args: Vec<String> = Vec::new();
    args.push(a.to_owned());
    args.push(b.to_owned());
    args.push(c.to_owned());
    args.push(d.to_owned());
    let r = ServiceCommand { args, strict };
    assert(words(r) =~= seq![a@, b@, c@, d@]);
    r
}

/// The commands that restart PipeWire: through systemd when `systemctl` is
/// installed (both units, a failure being an error), else through OpenRC
/// when `rc-service` is (user and system services, failures only warned
/// about), else none.
pub fn restart_pipewire(systemctl: bool, rc_service: bool) -> (cmds: Vec<ServiceCommand>)
    ensures
        cmds@.map_values(|c: ServiceCommand| (words(c), c.strict)) == restart_commands(
            systemctl,
            rc_service,
        ),
{
    let mut cmds: Vec<ServiceCommand> = Vec::new();
    if systemctl {
        cmds.push(command4("systemctl", "--user", "restart", "pipewire.service", true));
        cmds.push(command4("systemctl", "--user", "restart", "pipewire-pulse.service", true));
    } else if rc_service {
        cmds.push(command4("rc-service", "--user", "pipewire", "restart", false));
        cmds.push(command3("rc-service", "pipewire", "restart", false));
        cmds.push(command4("rc-service", "--user", "pipewire-pulse", "restart", false));
        cmds.push(command3("rc-service", "pipewire-pulse", "restart", false));
    }
    assert(cmds@.map_values(|c: ServiceCommand| (words(c), c.strict)) =~= restart_commands(
        systemctl,
        rc_service,
    ));
    cmds
}

/// Recovering PipeWire only ever restarts services. With systemd installed:
/// `systemctl --user restart` of `pipewire.service`, then of
/// `pipewire-pulse.service`, each failure being an error. Otherwise, with
/// OpenRC installed: `rc-service` restarting the user service, then the
/// system service, of `pipewire` and then of `pipewire-pulse`, failures only
/// warned about. With neither, no command.
pub proof fn law_restart_only_restarts(systemctl: bool, rc_service: bool)
    ensures
        ({
            let cmds = restart_commands(systemctl, rc_service);
            &&& forall|k: int|
                0 <= k < cmds.len() ==> (#[trigger] cmds[k]).0.last() == "restart"@ || cmds[k].0[2]
                    == "restart"@
            &&& systemctl ==> {
                &&& cmds.len() == 2
                &&& forall|k: int|
                    0 <= k < 2 ==> {
                        &&& (#[trigger] cmds[k]).1
                        &&& cmds[k].0.len() == 4
                        &&& cmds[k].0[0] == "systemctl"@
                        &&& cmds[k].0[1] == "--user"@
                        &&& cmds[k].0[2] == "restart"@
                    }
                &&& cmds[0].0[3] == "pipewire.service"@
                &&& cmds[1].0[3] == "pipewire-pulse.service"@
            }
            &&& !systemctl && rc_service ==> {
                &&& cmds.len() == 4
                &&& forall|k: int|
                    0 <= k < 4 ==> {
                        &&& !(#[trigger] cmds[k]).1
                        &&& cmds[k].0[0] == "rc-service"@
                        &&& cmds[k].0.last() == "restart"@
                        &&& (cmds[k].0.len() == 4 <==> k % 2 == 0)
                        &&& (k % 2 == 0 ==> cmds[k].0[1] == "--user"@)
                        &&& (k % 2 == 1 ==> cmds[k].0.len() == 3)
                        &&& cmds[k].0[cmds[k].0.len() - 2] == if k < 2 {
                            "pipewire"@
                        } else {
                            "pipewire-pulse"@
                        }
                    }
            }
            &&& !systemctl && !rc_service ==> cmds.len() == 0
        }),
{
    let cmds = restart_commands(systemctl, rc_service);
    if !systemctl && rc_service {
        assert(cmds[0].0.last() == "restart"@);
        assert(cmds[1].0.last() == "restart"@);
        assert(cmds[2].0.last() == "restart"@);
        assert(cmds[3].0.last() == "restart"@);
    }
}

} // verus!
