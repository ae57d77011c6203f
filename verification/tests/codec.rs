use byte_buster::hex_codec::{encode_upper, encode_upper_spaced, parse_hex_bytes};
use byte_buster::labels::WatchTarget;
use byte_buster::render::WatchView;
use byte_buster::ranges::{normalize_range, parse_index_range};

#[test]
fn decode_four_bytes() {
    assert_eq!(
        parse_hex_bytes("FE ED FA CE"),
        Ok(vec![0xFEu8, 0xED, 0xFA, 0xCE])
    );
}

#[test]
fn decode_invalid_token_names_it() {
    let err = parse_hex_bytes("GG").unwrap_err();
    assert_eq!(err, "invalid hex 'GG'");
}

#[test]
fn decode_reports_first_bad_token() {
    let err = parse_hex_bytes("AA ZZ 55 QQ").unwrap_err();
    assert_eq!(err, "invalid hex 'ZZ'");
}

#[test]
fn decode_empty_is_empty() {
    assert_eq!(parse_hex_bytes(""), Ok(vec![]));
    assert_eq!(parse_hex_bytes("   \t\n"), Ok(vec![]));
}

#[test]
fn decode_accepts_prefixes_and_case() {
    assert_eq!(parse_hex_bytes("0x41 0X42"), Ok(vec![0x41u8, 0x42]));
    assert_eq!(parse_hex_bytes("aa bB"), Ok(vec![0xAAu8, 0xBB]));
}

#[test]
fn decode_bare_prefix_is_malformed() {
    assert_eq!(parse_hex_bytes("0x"), Err("invalid hex '0x'".to_string()));
    assert_eq!(parse_hex_bytes("0x 41"), Err("invalid hex '0x'".to_string()));
    assert_eq!(parse_hex_bytes("41 0X"), Err("invalid hex '0X'".to_string()));
}

#[test]
fn decode_rejects_values_over_a_byte() {
    assert_eq!(parse_hex_bytes("1FF"), Err("invalid hex '1FF'".to_string()));
    // Leading zeros keep the value in range.
    assert_eq!(parse_hex_bytes("00FF"), Ok(vec![0xFFu8]));
}

#[test]
fn encode_upper_two_digits_per_byte() {
    assert_eq!(encode_upper(&[0x0A, 0xFF, 0x00]), "0AFF00");
    assert_eq!(encode_upper(&[]), "");
    assert_eq!(encode_upper(&[0xAB]), "AB");
}

#[test]
fn round_trip_spaced_encoding() {
    for bytes in [
        vec![],
        vec![0x00u8],
        vec![0xDE, 0xAD, 0xBE, 0xEF],
        (0u8..=255).collect::<Vec<u8>>(),
    ] {
        let text = encode_upper_spaced(&bytes);
        assert_eq!(parse_hex_bytes(&text), Ok(bytes));
    }
}

#[test]
fn round_trip_through_hex_crate_output() {
    let bytes = vec![0x01u8, 0x23, 0x45, 0x67, 0x89, 0xAB, 0xCD, 0xEF];
    let compact = encode_upper(&bytes);
    assert_eq!(compact, "0123456789ABCDEF");
    let spaced = compact
        .as_bytes()
        .chunks(2)
        .map(|p| std::str::from_utf8(p).unwrap())
        .collect::<Vec<_>>()
        .join(" ");
    assert_eq!(parse_hex_bytes(&spaced), Ok(bytes));
}

#[test]
fn range_single_index() {
    assert_eq!(parse_index_range("3"), Some((3, 3)));
    assert_eq!(parse_index_range("  7  "), Some((7, 7)));
}

#[test]
fn range_dashed() {
    assert_eq!(parse_index_range("3-5"), Some((3, 5)));
    assert_eq!(parse_index_range(" 10 - 13 "), Some((10, 13)));
}

#[test]
fn range_dotted() {
    assert_eq!(parse_index_range("10..20"), Some((10, 20)));
}

#[test]
fn range_rejects_empty_and_garbage() {
    assert_eq!(parse_index_range(""), None);
    assert_eq!(parse_index_range("   "), None);
    assert_eq!(parse_index_range("x"), None);
    assert_eq!(parse_index_range("a-b"), None);
    assert_eq!(parse_index_range("3..x"), None);
}

#[test]
fn range_dash_grammar_takes_precedence() {
    // The dash splits first, leaving an unparsable right side, so the
    // dotted reading is never tried.
    assert_eq!(parse_index_range("1-2..3"), None);
}

#[test]
fn range_keeps_reversed_order_and_caller_normalizes() {
    assert_eq!(parse_index_range("5-2"), Some((5, 2)));
    assert_eq!(normalize_range(5, 2), (2, 5));
    assert_eq!(normalize_range(2, 5), (2, 5));
    assert_eq!(normalize_range(4, 4), (4, 4));
}

#[test]
fn decode_any_ascii_whitespace_separates() {
    assert_eq!(
        parse_hex_bytes("AA\t55\n0D\r0A"),
        Ok(vec![0xAAu8, 0x55, 0x0D, 0x0A])
    );
}

#[test]
fn display_names_for_views_and_targets() {
    assert_eq!(WatchView::Hex.display_text(), "Hex");
    assert_eq!(WatchView::Text.display_text(), "Text");
    assert_eq!(WatchView::Binary.display_text(), "Binary");
    assert_eq!(WatchTarget::All.display_text(), "All messages");
    assert_eq!(
        WatchTarget::Label("PING".to_string()).display_text(),
        "PING"
    );
}

#[test]
fn range_needs_both_sides_of_a_dash() {
    assert_eq!(parse_index_range("-5"), None);
    assert_eq!(parse_index_range("5-"), None);
    assert_eq!(parse_index_range("-"), None);
}

#[test]
fn range_handles_word_sized_values() {
    let max = usize::MAX.to_string();
    assert_eq!(parse_index_range(&max), Some((usize::MAX, usize::MAX)));
    let over = format!("{}0", max);
    assert_eq!(parse_index_range(&over), None);
}

#[test]
fn decode_strips_only_one_prefix() {
    assert!(parse_hex_bytes("0x0x41").is_err());
}
