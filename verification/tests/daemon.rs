use aproman::config::Config;
use aproman::daemon::{self, Action, Command, DecodeError, Event};
use aproman::events::{SignalKind, SleepTransition};

#[test]
fn decode_command_accepts_cycle() {
    assert_eq!(
        Command::Cycle(None),
        daemon::decode_command(b"cycle").unwrap()
    );
    assert_eq!(
        Command::Cycle(Some("pro-audio".to_string())),
        daemon::decode_command(b"cycle pro-audio").unwrap()
    );
}

#[test]
fn decode_command_accepts_toggle_alias() {
    assert_eq!(
        Command::Cycle(None),
        daemon::decode_command(b"toggle").unwrap()
    );
    assert_eq!(
        Command::Cycle(Some("pro-audio".to_string())),
        daemon::decode_command(b"toggle pro-audio").unwrap()
    );
}

#[test]
fn decode_command_accepts_reload() {
    assert_eq!(Command::Reload, daemon::decode_command(b"reload").unwrap());
}

#[test]
fn decode_command_rejects_unknown() {
    assert!(daemon::decode_command(b"invalid").is_err());
}

#[test]
fn decode_command_trims_whitespace() {
    assert_eq!(Command::Reload, daemon::decode_command(b"  reload\n").unwrap());
    assert_eq!(
        Command::Cycle(Some("a  b".to_string())),
        daemon::decode_command(b"\tcycle a  b \n").unwrap()
    );
}

#[test]
fn decode_command_errors() {
    let err = daemon::decode_command(b" cyclez ").unwrap_err();
    assert_eq!(DecodeError::Unsupported("cyclez".to_string()), err);
    assert_eq!("Unsupported command: cyclez", err.message());
    let bad = daemon::decode_command(&[0x63, 0xff, 0xfe]).unwrap_err();
    assert!(matches!(bad, DecodeError::InvalidUtf8(_)));
    assert!(!bad.message().is_empty());
}

fn config() -> Config {
    Config {
        card: Some("hdmi-card".to_string()),
        cli_card: false,
        cli_profile: false,
        profile: Some("pro-audio".to_string()),
    }
}

#[test]
fn waking_cycles_configured_card() {
    assert_eq!(
        Action::CycleAfterWake {
            card: "hdmi-card".to_string(),
            profile: "pro-audio".to_string()
        },
        daemon::on_event(&config(), &Event::Sleep(SleepTransition::Waking))
    );
    assert_eq!(
        Action::Ignore,
        daemon::on_event(&config(), &Event::Sleep(SleepTransition::Sleeping))
    );
}

#[test]
fn signals_and_closed_feed() {
    assert_eq!(Action::Stop, daemon::on_event(&config(), &Event::Signal(SignalKind::Stop)));
    assert_eq!(Action::Reload, daemon::on_event(&config(), &Event::Signal(SignalKind::Reload)));
    assert_eq!(Action::Stop, daemon::on_event(&config(), &Event::SleepFeedClosed));
}

#[test]
fn cycle_message_uses_requested_or_configured_profile() {
    assert_eq!(
        Action::Cycle {
            card: "hdmi-card".to_string(),
            profile: "stereo".to_string()
        },
        daemon::on_event(&config(), &Event::Message(b"cycle stereo".to_vec()))
    );
    let empty = Config {
        card: None,
        cli_card: false,
        cli_profile: false,
        profile: None,
    };
    assert_eq!(
        Action::Cycle {
            card: String::new(),
            profile: String::new()
        },
        daemon::on_event(&empty, &Event::Message(b"toggle".to_vec()))
    );
    assert_eq!(
        Action::Refuse(DecodeError::Unsupported("nope".to_string())),
        daemon::on_event(&config(), &Event::Message(b"nope".to_vec()))
    );
}

#[test]
fn uid_from_status_reads_the_effective_uid() {
    let status = "Name:\taproman\nUmask:\t0022\nUid:\t1000\t1001\t1000\t1000\nGid:\t1000\t1000\t1000\t1000\n";
    assert_eq!(Some(1001), daemon::uid_from_status(status));
}

#[test]
fn uid_from_status_takes_the_first_uid_line() {
    let status = "Uid: 5 7\r\nUid: 8 9\n";
    assert_eq!(Some(7), daemon::uid_from_status(status));
}

#[test]
fn uid_from_status_without_a_second_word_is_none() {
    assert_eq!(None, daemon::uid_from_status("Uid:\t1000\n"));
    assert_eq!(None, daemon::uid_from_status("Gid:\t1000 1000\n"));
    assert_eq!(None, daemon::uid_from_status(""));
}

#[test]
fn uid_from_status_parses_like_str_parse() {
    assert_eq!(Some(42), daemon::uid_from_status("Uid: 0 +42"));
    assert_eq!(None, daemon::uid_from_status("Uid: 0 4x2"));
    assert_eq!(None, daemon::uid_from_status("Uid: 0 +"));
    assert_eq!(Some(4294967295), daemon::uid_from_status("Uid: 0 4294967295"));
    assert_eq!(None, daemon::uid_from_status("Uid: 0 4294967296"));
    assert_eq!(None, daemon::uid_from_status("Uid: 0 99999999999999999999"));
}

#[test]
fn cycle_request_is_read_back_as_a_cycle_to_its_profile() {
    let request = daemon::cycle_request("pro-audio");
    assert_eq!(b"cycle pro-audio".to_vec(), request);
    assert_eq!(
        Command::Cycle(Some("pro-audio".to_string())),
        daemon::decode_command(&request).unwrap()
    );
    let spaced = daemon::cycle_request(" output:hdmi-stereo");
    assert_eq!(
        Command::Cycle(Some(" output:hdmi-stereo".to_string())),
        daemon::decode_command(&spaced).unwrap()
    );
}

#[test]
fn cycle_request_with_an_empty_profile_reads_as_plain_cycle() {
    assert_eq!(
        Command::Cycle(None),
        daemon::decode_command(&daemon::cycle_request("")).unwrap()
    );
}

#[test]
fn reload_request_is_read_back_as_reload() {
    assert_eq!(b"reload".to_vec(), daemon::reload_request());
    assert_eq!(
        Command::Reload,
        daemon::decode_command(&daemon::reload_request()).unwrap()
    );
}

#[test]
fn user_runtime_dir_defaults_to_root() {
    assert_eq!("/run/user/1000", daemon::user_runtime_dir(Some(1000)));
    assert_eq!("/run/user/0", daemon::user_runtime_dir(None));
}
