use aproman::events::SleepTransition;
use aproman::sleep_monitor;

#[test]
fn boolean_after_signal_gives_transition() {
    let mut expect = false;
    assert_eq!(
        None,
        sleep_monitor::parse_line(
            "signal time=1 sender=:1.2 -> destination=(null destination) serial=9 path=/org/freedesktop/login1; interface=org.freedesktop.login1.Manager; member=PrepareForSleep",
            &mut expect
        )
    );
    assert!(expect);
    assert_eq!(
        Some(SleepTransition::Sleeping),
        sleep_monitor::parse_line("   boolean true", &mut expect)
    );
    assert!(!expect);
    assert_eq!(None, sleep_monitor::parse_line("   boolean false", &mut expect));
    sleep_monitor::parse_line("member=PrepareForSleep", &mut expect);
    assert_eq!(
        Some(SleepTransition::Waking),
        sleep_monitor::parse_line("   boolean false", &mut expect)
    );
}

#[test]
fn unrelated_lines_keep_waiting() {
    let mut expect = true;
    assert_eq!(None, sleep_monitor::parse_line("string \"x\"", &mut expect));
    assert!(expect);
    assert_eq!(None, sleep_monitor::parse_line("boolean maybe", &mut expect));
    assert!(!expect);
}

#[test]
fn one_transition_per_signal_over_a_sequence() {
    let lines = [
        "   boolean true",
        "signal time=1 sender=:1.2 -> destination=(null destination) path=/org/freedesktop/login1; interface=org.freedesktop.login1.Manager; member=PrepareForSleep",
        "   boolean true",
        "   boolean false",
        "signal time=2 sender=:1.2 -> destination=(null destination) path=/org/freedesktop/login1; interface=org.freedesktop.login1.Manager; member=PrepareForSleep",
        "   string \"x\"",
        "   boolean false",
    ];
    let mut expecting = false;
    let answers: Vec<_> = lines
        .iter()
        .map(|line| sleep_monitor::parse_line(line, &mut expecting))
        .collect();
    assert_eq!(
        vec![
            None,
            None,
            Some(SleepTransition::Sleeping),
            None,
            None,
            None,
            Some(SleepTransition::Waking),
        ],
        answers
    );
    assert!(!expecting);
}
