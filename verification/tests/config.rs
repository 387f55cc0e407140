use aproman::cli::Overrides;
use aproman::config::{self, Config, ConfigError, FileConfig};

#[test]
fn parse_conf_ignores_comments_and_blank_lines() {
    let entries = config::parse_conf(
        "\n# comment\n--card=alsa_card.pci-0000_01_00.1\n--profile=pro-audio\n",
        "test.conf",
    )
    .unwrap();
    assert_eq!(
        vec![
            (
                "--card".to_string(),
                "alsa_card.pci-0000_01_00.1".to_string()
            ),
            ("--profile".to_string(), "pro-audio".to_string()),
        ],
        entries
    );
}

#[test]
fn parse_conf_rejects_malformed_line() {
    let err = config::parse_conf("card=bad\n", "test.conf").unwrap_err();
    assert!(err.message().contains("malformed line"));
}

#[test]
fn parse_conf_reports_line_number_and_trimmed_line() {
    let err = config::parse_conf("--card=a\n\n  --Bad=x  \n--x=\n", "/c.conf").unwrap_err();
    assert_eq!(
        ConfigError::MalformedLine {
            line_number: 3,
            path: "/c.conf".to_string(),
            line: "--Bad=x".to_string(),
        },
        err
    );
    assert_eq!("malformed line 3 in /c.conf: --Bad=x", err.message());
}

#[test]
fn parse_conf_rejects_empty_value() {
    assert!(config::parse_conf("--card=\n", "p").is_err());
    assert!(config::parse_conf("--card=  \n", "p").is_err());
}

#[test]
fn parse_conf_trims_and_keeps_inner_equals() {
    let entries = config::parse_conf("  --wake-delay2=a=b \r\n\t# x\n", "p").unwrap();
    assert_eq!(vec![("--wake-delay2".to_string(), "a=b".to_string())], entries);
}

#[test]
fn file_config_takes_last_card_and_profile() {
    let f = FileConfig::load("--card=a\n--profile=p\n--card=b\n", "p").unwrap();
    assert_eq!(Some("b".to_string()), f.card);
    assert_eq!(Some("p".to_string()), f.profile);
}

#[test]
fn file_config_rejects_unsupported_flag() {
    let err = FileConfig::load("--card=a\n--volume=3\n--other=x\n", "/c.conf").unwrap_err();
    assert_eq!(
        ConfigError::UnsupportedFlag {
            flag: "--volume".to_string(),
            path: "/c.conf".to_string()
        },
        err
    );
    assert_eq!("unsupported flag '--volume' in /c.conf", err.message());
}

#[test]
fn lookup_default_takes_first_entry() {
    let text = "--profile=p\n--card=a\n--card=b\n";
    assert_eq!(Ok("a".to_string()), config::lookup_default(text, "p", "card"));
    let err = config::lookup_default("--card=a\n", "/c.conf", "profile").unwrap_err();
    assert_eq!(
        "No --profile entry found in /c.conf\nUse 'aproman list-cards' or 'aproman list-profiles' to see available options.",
        err.message()
    );
}

#[test]
fn missing_file_message_hints_at_auto_detection_for_card() {
    let err = ConfigError::MissingFile {
        path: "/c.conf".to_string(),
        key: "card".to_string(),
    };
    assert_eq!(
        "No config file found at /c.conf\nWithout a default, aproman auto-detects the first HDMI card.\nUse 'aproman list-cards' or 'aproman list-profiles' to see available options.",
        err.message()
    );
}

#[test]
fn with_default_replaces_every_setting_line() {
    let text = "# mine\n  --card=old\n--profile=p\n--card=older\n";
    assert_eq!(
        "# mine\n--card=new\n--profile=p\n--card=new\n",
        config::with_default(text, "card", "new")
    );
}

#[test]
fn with_default_appends_when_unset() {
    assert_eq!("--card=x\n", config::with_default("", "card", "x"));
    assert_eq!(
        "--card=a\n--profile=p\n",
        config::with_default("--card=a", "profile", "p")
    );
}

#[test]
fn written_default_reads_back() {
    let text = "# c\n--profile=p\r\n--card=a\n";
    let written = config::with_default(text, "card", "hdmi");
    assert_eq!(Ok("hdmi".to_string()), config::lookup_default(&written, "p", "card"));
    assert_eq!(Ok("p".to_string()), config::lookup_default(&written, "p", "profile"));
}

#[test]
fn build_prefers_command_line() {
    let file = FileConfig {
        card: Some("file-card".to_string()),
        profile: Some("file-profile".to_string()),
    };
    let overrides = Overrides {
        card: Some("cli-card".to_string()),
        profile: None,
    };
    let c = Config::build(&overrides, &file);
    assert_eq!(Some("cli-card".to_string()), c.card);
    assert_eq!(Some("file-profile".to_string()), c.profile);
    assert!(c.cli_card);
    assert!(!c.cli_profile);
}

#[test]
fn reload_keeps_command_line_choices() {
    let mut c = Config {
        card: Some("cli".to_string()),
        cli_card: true,
        cli_profile: false,
        profile: Some("old".to_string()),
    };
    let fresh = Config {
        card: Some("new-card".to_string()),
        cli_card: false,
        cli_profile: false,
        profile: None,
    };
    c.reload(&fresh);
    assert_eq!(Some("cli".to_string()), c.card);
    assert_eq!(None, c.profile);
}

#[test]
fn reload_equals_a_fresh_build_from_the_same_command_line() {
    let overrides = Overrides {
        card: None,
        profile: Some("cli-profile".to_string()),
    };
    let before = FileConfig {
        card: Some("old-card".to_string()),
        profile: Some("old-profile".to_string()),
    };
    let after = FileConfig {
        card: Some("new-card".to_string()),
        profile: None,
    };
    let mut running = Config::build(&overrides, &before);
    let fresh = Config::build(&overrides, &after);
    running.reload(&fresh);
    assert_eq!(fresh, running);
    assert_eq!(Some("new-card".to_string()), running.card);
    assert_eq!(Some("cli-profile".to_string()), running.profile);
}
