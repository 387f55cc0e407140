use aproman::pactl::{self, AttemptOutcome, Card, CycleProgress, PactlError, Profile};

const PACTL_CARDS_OUTPUT: &str = r#"Card #0
	Name: alsa_card.pci-0000_00_1f.3
	Active Profile: output:analog-stereo
	Properties:
		alsa.card_name = "HDA Intel PCH"
	ports:
		analog-output-lineout: Line Out
			Properties:
				port.type = "analog"
Card #1
	Name: alsa_card.pci-0000_01_00.1
	Active Profile: output:hdmi-stereo
	Properties:
		alsa.card_name = "HDA NVidia"
	Profiles:
		output:hdmi-stereo: Digital Stereo (HDMI) Output (sinks: 1, sources: 0, priority: 5900, available: yes)
		output:hdmi-surround: Digital Surround 5.1 (HDMI) Output (sinks: 1, sources: 0, priority: 800, available: yes)
		off: Off (sinks: 0, sources: 0, priority: 0, available: yes)
	ports:
		hdmi-output-0: HDMI / DisplayPort 1
			Properties:
				port.type = "hdmi"
"#;

#[test]
fn parse_cards_detects_hdmi_card() {
    let cards = pactl::parse_cards(PACTL_CARDS_OUTPUT);
    assert_eq!(2, cards.len());
    assert_eq!("alsa_card.pci-0000_01_00.1", cards[1].name);
    assert_eq!(Some("HDA NVidia"), cards[1].label.as_deref());
    assert!(cards[1].has_hdmi);
    assert_eq!(
        Some("output:hdmi-stereo"),
        cards[1].active_profile.as_deref()
    );
}

#[test]
fn sorted_profiles_are_priority_descending() {
    let cards = pactl::parse_cards(PACTL_CARDS_OUTPUT);
    let names: Vec<_> = cards[1]
        .sorted_profiles()
        .into_iter()
        .map(|profile| profile.name)
        .collect();
    assert_eq!(
        vec!["output:hdmi-stereo", "output:hdmi-surround", "off"],
        names
    );
}

#[test]
fn best_available_profile_excludes_off() {
    let cards = pactl::parse_cards(PACTL_CARDS_OUTPUT);
    assert_eq!(
        Some("output:hdmi-stereo".to_string()),
        cards[1].best_available_profile()
    );
}

fn profile(name: &str, priority: u32, available: &str) -> Profile {
    Profile {
        available: available.to_string(),
        name: name.to_string(),
        priority,
    }
}

fn card(name: &str, active: Option<&str>, has_hdmi: bool, profiles: Vec<Profile>) -> Card {
    Card {
        active_profile: active.map(str::to_string),
        has_hdmi,
        label: None,
        name: name.to_string(),
        profiles,
    }
}

#[test]
fn parse_cards_reads_every_field_of_the_first_card() {
    let cards = pactl::parse_cards(PACTL_CARDS_OUTPUT);
    assert_eq!("alsa_card.pci-0000_00_1f.3", cards[0].name);
    assert_eq!(Some("HDA Intel PCH"), cards[0].label.as_deref());
    assert_eq!(Some("output:analog-stereo"), cards[0].active_profile.as_deref());
    assert!(!cards[0].has_hdmi);
    assert!(cards[0].profiles.is_empty());
}

#[test]
fn parse_cards_reads_profile_lines() {
    let cards = pactl::parse_cards(PACTL_CARDS_OUTPUT);
    assert_eq!(
        vec![
            profile("output:hdmi-stereo", 5900, "yes"),
            profile("output:hdmi-surround", 800, "yes"),
            profile("off", 0, "yes"),
        ],
        cards[1].profiles
    );
}

#[test]
fn parse_cards_of_empty_text_is_empty() {
    assert!(pactl::parse_cards("").is_empty());
    assert!(pactl::parse_cards("Card #0\nCard #1\n").is_empty());
}

#[test]
fn parse_cards_skips_blocks_without_a_name() {
    let text = "Card #0\n\tActive Profile: off\nCard #1\n\tName: second\n";
    let cards = pactl::parse_cards(text);
    assert_eq!(1, cards.len());
    assert_eq!("second", cards[0].name);
}

#[test]
fn parse_cards_reads_lines_before_the_first_header() {
    let cards = pactl::parse_cards("Name: lone\r\n");
    assert_eq!(1, cards.len());
    assert_eq!("lone", cards[0].name);
}

#[test]
fn parse_cards_takes_the_last_value_of_a_field() {
    let text = "Card #0\n\tName: first\n\tName: second  trailing\n\tActive Profile:   a b  \n";
    let cards = pactl::parse_cards(text);
    assert_eq!("second", cards[0].name);
    assert_eq!(Some("a b"), cards[0].active_profile.as_deref());
}

#[test]
fn parse_cards_blank_active_profile_is_empty() {
    let cards = pactl::parse_cards("Name: x\nActive Profile:   \n");
    assert_eq!(Some(""), cards[0].active_profile.as_deref());
}

#[test]
fn parse_cards_label_runs_to_the_last_quote() {
    let cards = pactl::parse_cards("Name: x\n alsa.card_name = \"A \"B\" C\" tail\n");
    assert_eq!(Some("A \"B\" C"), cards[0].label.as_deref());
}

#[test]
fn parse_cards_profile_name_may_hold_colons() {
    let text = "Name: x\n\ta:b:c: Thing (priority: 7, available: no) priority: 9,available:yes\n";
    let cards = pactl::parse_cards(text);
    assert_eq!(vec![profile("a:b:c", 9, "yes")], cards[0].profiles);
}

#[test]
fn parse_cards_profile_priority_overflow_reads_zero() {
    let text = "Name: x\n\tp: (priority: 99999999999, available: yes)\n";
    let cards = pactl::parse_cards(text);
    assert_eq!(vec![profile("p", 0, "yes")], cards[0].profiles);
}

#[test]
fn parse_cards_profile_line_needs_leading_whitespace() {
    let cards = pactl::parse_cards("Name: x\np: (priority: 1, available: yes)\n");
    assert!(cards[0].profiles.is_empty());
}

#[test]
fn sorted_profiles_keep_listing_order_among_equals() {
    let c = card(
        "c",
        None,
        false,
        vec![profile("a", 1, "yes"), profile("b", 5, "no"), profile("c", 1, "yes"), profile("d", 5, "yes")],
    );
    let names: Vec<_> = c.sorted_profiles().into_iter().map(|p| p.name).collect();
    assert_eq!(vec!["b", "d", "a", "c"], names);
}

#[test]
fn best_available_profile_takes_last_of_equal_priority() {
    let c = card(
        "c",
        None,
        false,
        vec![profile("a", 5, "yes"), profile("b", 5, "yes"), profile("c", 9, "no"), profile("off", 10, "yes")],
    );
    assert_eq!(Some("b".to_string()), c.best_available_profile());
    let none = card("c", None, false, vec![profile("off", 1, "yes"), profile("x", 2, "no")]);
    assert_eq!(None, none.best_available_profile());
}

#[test]
fn resolve_card_by_name_or_hdmi() {
    let cards = vec![card("a", None, false, vec![]), card("b", None, true, vec![]), card("c", None, true, vec![])];
    assert_eq!("c", pactl::resolve_card(&cards, Some("c")).unwrap().name);
    assert_eq!("b", pactl::resolve_card(&cards, None).unwrap().name);
    assert_eq!(Ok("b".to_string()), pactl::detect_hdmi_card_name(&cards));
    assert_eq!(None, pactl::find_card(&cards, "z"));
    let err = pactl::resolve_card(&cards, Some("z")).unwrap_err();
    assert_eq!(PactlError::CardNotFound("z".to_string()), err);
    assert_eq!("Card 'z' not found", err.message());
    let plain = vec![card("a", None, false, vec![])];
    let err = pactl::resolve_card(&plain, None).unwrap_err();
    assert_eq!(PactlError::NoHdmiCard, err);
    assert_eq!(
        "No HDMI audio card detected. Use --card to specify one manually.",
        err.message()
    );
}

#[test]
fn resolve_cycle_profile_prefers_explicit_then_active() {
    let c = card("c", Some("output:hdmi"), true, vec![profile("p", 1, "yes")]);
    assert_eq!(Ok("x".to_string()), pactl::resolve_cycle_profile(&c, Some("x")));
    assert_eq!(Ok("output:hdmi".to_string()), pactl::resolve_cycle_profile(&c, None));
    let off = card("c", Some("off"), true, vec![profile("p", 1, "yes")]);
    assert_eq!(Ok("p".to_string()), pactl::resolve_cycle_profile(&off, None));
    let bare = card("c", None, true, vec![profile("off", 1, "yes")]);
    let err = pactl::resolve_cycle_profile(&bare, None).unwrap_err();
    assert_eq!(PactlError::NoAvailableProfile, err);
    assert_eq!("card has no available profiles; use --profile to specify one", err.message());
}

#[test]
fn cycle_plan_goes_through_off() {
    let c = card("c", Some("output:hdmi"), true, vec![]);
    let plan = pactl::cycle_plan(&c, "pro-audio").unwrap();
    assert_eq!("output:hdmi", plan.current);
    assert_eq!(vec!["off".to_string(), "pro-audio".to_string()], plan.steps);
    let none = card("c", None, true, vec![]);
    let err = pactl::cycle_plan(&none, "pro-audio").err().unwrap();
    assert_eq!(PactlError::NoActiveProfile, err);
    assert_eq!("could not determine active profile; skipping cycle", err.message());
}

#[test]
fn retry_after_every_attempt_but_the_last() {
    assert!(pactl::retry_after(0, 20));
    assert!(pactl::retry_after(18, 20));
    assert!(!pactl::retry_after(19, 20));
    assert!(!pactl::retry_after(0, 1));
    assert!(!pactl::retry_after(0, 0));
}

#[test]
fn card_listing_shows_label_profile_hdmi_and_selection() {
    let cards = pactl::parse_cards(PACTL_CARDS_OUTPUT);
    assert_eq!(
        "alsa_card.pci-0000_01_00.1  (HDA NVidia)  profile: output:hdmi-stereo  hdmi  *",
        cards[1].listing(Some("alsa_card.pci-0000_01_00.1"))
    );
    assert_eq!(
        "alsa_card.pci-0000_00_1f.3  (HDA Intel PCH)  profile: output:analog-stereo",
        cards[0].listing(Some("alsa_card.pci-0000_01_00.1"))
    );
}

#[test]
fn card_listing_of_a_bare_card_is_its_name() {
    let bare = card("bare", None, false, vec![]);
    assert_eq!("bare", bare.listing(None));
    assert_eq!("bare  *", bare.listing(Some("bare")));
}

#[test]
fn profile_listing_marks_the_active_profile() {
    let p = profile("output:hdmi-stereo", 5900, "yes");
    assert_eq!(
        "output:hdmi-stereo  (priority: 5900, available: yes) *",
        p.listing(Some("output:hdmi-stereo"))
    );
    assert_eq!(
        "output:hdmi-stereo  (priority: 5900, available: yes)",
        p.listing(Some("off"))
    );
    let off = profile("off", 0, "unknown");
    assert_eq!("off  (priority: 0, available: unknown)", off.listing(None));
}

#[test]
fn card_listings_mark_the_first_hdmi_card_by_default() {
    let cards = pactl::parse_cards(PACTL_CARDS_OUTPUT);
    assert_eq!(
        vec![
            "alsa_card.pci-0000_00_1f.3  (HDA Intel PCH)  profile: output:analog-stereo".to_string(),
            "alsa_card.pci-0000_01_00.1  (HDA NVidia)  profile: output:hdmi-stereo  hdmi  *"
                .to_string(),
        ],
        pactl::card_listings(&cards, None)
    );
}

#[test]
fn card_listings_mark_the_named_card() {
    let cards = pactl::parse_cards(PACTL_CARDS_OUTPUT);
    let lines = pactl::card_listings(&cards, Some("alsa_card.pci-0000_00_1f.3"));
    assert!(lines[0].ends_with("  *"));
    assert!(!lines[1].ends_with("  *"));
    let none = pactl::card_listings(&cards, Some("missing"));
    assert!(none.iter().all(|line| !line.ends_with("  *")));
}

#[test]
fn card_listings_without_hdmi_mark_nothing() {
    let cards = vec![card("a", None, false, vec![]), card("b", Some("off"), false, vec![])];
    assert_eq!(
        vec!["a".to_string(), "b  profile: off".to_string()],
        pactl::card_listings(&cards, None)
    );
}

#[test]
fn profile_listings_follow_priority_and_mark_active() {
    let cards = pactl::parse_cards(PACTL_CARDS_OUTPUT);
    assert_eq!(
        vec![
            "output:hdmi-stereo  (priority: 5900, available: yes) *".to_string(),
            "output:hdmi-surround  (priority: 800, available: yes)".to_string(),
            "off  (priority: 0, available: yes)".to_string(),
        ],
        cards[1].profile_listings()
    );
}

#[test]
fn parse_cards_profile_priority_in_other_digits_reads_zero() {
    let text = "Card #0\n\tName: c\n\tProfiles:\n\t\toutput:x: X (sinks: 1, sources: 0, priority: \u{0665}\u{0660}, available: yes)\n\t\toutput:y: Y (sinks: 1, sources: 0, priority: 4\u{FF12}, available: no)\n";
    let cards = pactl::parse_cards(text);
    assert_eq!(1, cards.len());
    assert_eq!(
        vec![profile("output:x", 0, "yes"), profile("output:y", 0, "no")],
        cards[0].profiles
    );
}

#[test]
fn after_attempt_retries_until_the_last() {
    assert_eq!(AttemptOutcome::Done, pactl::after_attempt(0, 20, true));
    assert_eq!(AttemptOutcome::RetryAfterPause, pactl::after_attempt(0, 20, false));
    assert_eq!(AttemptOutcome::RetryAfterPause, pactl::after_attempt(18, 20, false));
    assert_eq!(AttemptOutcome::GiveUp, pactl::after_attempt(19, 20, false));
    assert_eq!(AttemptOutcome::Done, pactl::after_attempt(19, 20, true));
}

#[test]
fn after_cycle_step_moves_on_gives_up_or_restores() {
    let c = card("c", Some("output:hdmi-stereo"), true, vec![]);
    let plan = pactl::cycle_plan(&c, "output:hdmi-surround").unwrap();
    assert_eq!(CycleProgress::Next(1), pactl::after_cycle_step(&plan, 0, true));
    assert_eq!(
        CycleProgress::GiveUp("Failed to set profile to 'off'. Will retry next cycle.".to_string()),
        pactl::after_cycle_step(&plan, 0, false)
    );
    assert_eq!(
        CycleProgress::GiveUp(
            "Failed to restore profile to 'output:hdmi-surround'. Will retry next cycle.".to_string()
        ),
        pactl::after_cycle_step(&plan, 1, false)
    );
    assert_eq!(
        CycleProgress::Restored("Profile restored to output:hdmi-surround.".to_string()),
        pactl::after_cycle_step(&plan, 1, true)
    );
}
