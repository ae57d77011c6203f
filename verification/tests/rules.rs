use byte_buster::labels::{
    find_message_label, target_applies, watch_value, LabelRule, WatchItem, WatchTarget,
};
use byte_buster::render::{format_bytes_for_view, WatchView};
use byte_buster::suspects::{
    check_suspects_for_message, has_critical, ExpectedKind, Severity, SuspectRule,
};

fn label_rule(name: &str, start: usize, end: usize, value: Vec<u8>) -> LabelRule {
    LabelRule {
        name: name.to_string(),
        start_index: start,
        end_index: end,
        value,
    }
}

#[test]
fn first_matching_label_wins() {
    let rules = vec![
        label_rule("A", 0, 0, vec![0x01]),
        label_rule("B", 0, 0, vec![0x01]),
    ];
    assert_eq!(find_message_label(&[0x01], &rules), Some("A".to_string()));
}

#[test]
fn unresolvable_label_rules_are_skipped() {
    let rules = vec![
        label_rule("far", 5, 9, vec![0x01, 0x02, 0x03, 0x04, 0x05]),
        label_rule("near", 0, 0, vec![0xAB]),
    ];
    assert_eq!(
        find_message_label(&[0xAB, 0xCD], &rules),
        Some("near".to_string())
    );
}

#[test]
fn label_needs_exact_length_and_content() {
    let rules = vec![label_rule("two", 0, 1, vec![0xAB])];
    assert_eq!(find_message_label(&[0xAB, 0xCD], &rules), None);
    let rules = vec![label_rule("two", 0, 1, vec![0xAB, 0x00])];
    assert_eq!(find_message_label(&[0xAB, 0xCD], &rules), None);
    let rules = vec![label_rule("two", 0, 1, vec![0xAB, 0xCD])];
    assert_eq!(
        find_message_label(&[0xAB, 0xCD], &rules),
        Some("two".to_string())
    );
}

#[test]
fn no_rule_matches_means_no_label() {
    assert_eq!(find_message_label(&[0x01], &[]), None);
}

#[test]
fn target_applies_all_and_by_label() {
    let all = WatchTarget::All;
    let named = WatchTarget::Label("A".to_string());
    assert!(target_applies(&all, &None));
    assert!(target_applies(&all, &Some("B".to_string())));
    assert!(!target_applies(&named, &None));
    assert!(!target_applies(&named, &Some("B".to_string())));
    assert!(target_applies(&named, &Some("A".to_string())));
}

#[test]
fn render_hex_text_binary() {
    assert_eq!(format_bytes_for_view(&[0x0A, 0xFF], WatchView::Hex), "0AFF");
    assert_eq!(format_bytes_for_view(b"AB", WatchView::Text), "AB");
    assert_eq!(
        format_bytes_for_view(&[0x0A, 0xFF], WatchView::Binary),
        "00001010 11111111"
    );
    assert_eq!(format_bytes_for_view(&[], WatchView::Binary), "");
}

#[test]
fn render_text_is_lossy_on_invalid_utf8() {
    assert_eq!(
        format_bytes_for_view(&[0xFF], WatchView::Text),
        "\u{FFFD}"
    );
}

#[test]
fn render_empty_bytes_gives_empty_string_in_every_mode() {
    assert_eq!(format_bytes_for_view(&[], WatchView::Hex), "");
    assert_eq!(format_bytes_for_view(&[], WatchView::Text), "");
    assert_eq!(format_bytes_for_view(&[], WatchView::Binary), "");
}

#[test]
fn watch_values_render_or_dash() {
    let msg = [0x50u8, 0x49, 0x4E, 0x47];
    let item = WatchItem {
        name: "w".to_string(),
        start_index: 1,
        end_index: 2,
        view: WatchView::Hex,
        target: WatchTarget::All,
    };
    assert_eq!(watch_value(&msg, &item), "0x494E");
    let text_item = WatchItem {
        view: WatchView::Text,
        ..item.clone()
    };
    assert_eq!(watch_value(&msg, &text_item), "IN");
    let far_item = WatchItem {
        start_index: 2,
        end_index: 9,
        ..item
    };
    assert_eq!(watch_value(&msg, &far_item), "-");
}

fn suspect_rule(
    name: &str,
    start: usize,
    end: usize,
    kind: ExpectedKind,
    expected: &str,
    target: WatchTarget,
    severity: Severity,
) -> SuspectRule {
    SuspectRule {
        name: name.to_string(),
        start_index: start,
        end_index: end,
        expected_kind: kind,
        expected_value: expected.to_string(),
        target,
        severity,
    }
}

#[test]
fn hex_mismatch_reports_expected_and_got() {
    let rule = suspect_rule(
        "magic",
        0,
        3,
        ExpectedKind::Hex,
        "50 49 4E 47",
        WatchTarget::All,
        Severity::Warning,
    );
    let msg = [0x50u8, 0x49, 0x4E, 0x00];
    let warnings = check_suspects_for_message(&msg, &None, &[rule]);
    assert_eq!(warnings.len(), 1);
    assert_eq!(warnings[0].0, Severity::Warning);
    assert_eq!(
        warnings[0].1,
        "magic: expected 0x50494E47 at [0..3], got 0x50494E00"
    );
}

#[test]
fn met_expectations_stay_silent() {
    let hex_rule = suspect_rule(
        "magic",
        0,
        3,
        ExpectedKind::Hex,
        "50 49 4E 47",
        WatchTarget::All,
        Severity::Warning,
    );
    let text_rule = suspect_rule(
        "text",
        0,
        3,
        ExpectedKind::Text,
        "PING",
        WatchTarget::All,
        Severity::Info,
    );
    let msg = *b"PING";
    let warnings = check_suspects_for_message(&msg, &None, &[hex_rule, text_rule]);
    assert!(warnings.is_empty());
}

#[test]
fn text_mismatch_shows_found_text() {
    let rule = suspect_rule(
        "text",
        0,
        3,
        ExpectedKind::Text,
        "PING",
        WatchTarget::All,
        Severity::Info,
    );
    let warnings = check_suspects_for_message(b"PONG", &None, &[rule]);
    assert_eq!(warnings.len(), 1);
    assert_eq!(warnings[0].0, Severity::Info);
    assert_eq!(warnings[0].1, "text: expected PING at [0..3], got PONG");
}

#[test]
fn unresolvable_range_is_a_failed_expectation() {
    // Unlike label rules, an out-of-range expectation warns instead of
    // being skipped: drift past the end of a message is suspicious.
    let rule = suspect_rule(
        "tail",
        4,
        7,
        ExpectedKind::Text,
        "DATA",
        WatchTarget::All,
        Severity::Critical,
    );
    let warnings = check_suspects_for_message(b"ab", &None, &[rule]);
    assert_eq!(warnings.len(), 1);
    assert_eq!(warnings[0].0, Severity::Critical);
    assert_eq!(warnings[0].1, "tail: expected DATA at [4..7], got -");
}

#[test]
fn undecodable_expected_hex_always_warns() {
    let rule = suspect_rule(
        "bad",
        0,
        0,
        ExpectedKind::Hex,
        "ZZ",
        WatchTarget::All,
        Severity::Warning,
    );
    let warnings = check_suspects_for_message(&[0x00], &None, &[rule]);
    assert_eq!(warnings.len(), 1);
    assert_eq!(warnings[0].1, "bad: expected 0xZZ at [0..0], got 0x00");
}

#[test]
fn labeled_rules_apply_only_under_their_label() {
    let rule = suspect_rule(
        "only-a",
        0,
        0,
        ExpectedKind::Hex,
        "FF",
        WatchTarget::Label("A".to_string()),
        Severity::Warning,
    );
    let msg = [0x00u8];
    assert!(check_suspects_for_message(&msg, &None, std::slice::from_ref(&rule)).is_empty());
    assert!(check_suspects_for_message(&msg, &Some("B".to_string()), std::slice::from_ref(&rule))
        .is_empty());
    let warnings = check_suspects_for_message(&msg, &Some("A".to_string()), &[rule]);
    assert_eq!(warnings.len(), 1);
}

#[test]
fn warnings_come_in_rule_order() {
    let first = suspect_rule(
        "first",
        0,
        0,
        ExpectedKind::Hex,
        "FF",
        WatchTarget::All,
        Severity::Info,
    );
    let second = suspect_rule(
        "second",
        1,
        1,
        ExpectedKind::Hex,
        "FF",
        WatchTarget::All,
        Severity::Critical,
    );
    let warnings = check_suspects_for_message(&[0x00, 0x00], &None, &[first, second]);
    assert_eq!(warnings.len(), 2);
    assert!(warnings[0].1.starts_with("first:"));
    assert!(warnings[1].1.starts_with("second:"));
}

#[test]
fn critical_detection_folds_over_warnings() {
    let none: Vec<(Severity, String)> = Vec::new();
    assert!(!has_critical(&none));
    let mild = vec![(Severity::Info, "a".to_string()), (Severity::Warning, "b".to_string())];
    assert!(!has_critical(&mild));
    let hot = vec![(Severity::Info, "a".to_string()), (Severity::Critical, "b".to_string())];
    assert!(has_critical(&hot));
}
