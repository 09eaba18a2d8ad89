use nil_vfs::line_map::{CodeUnitsDiff, LineMap, MAX_FILE_LEN};
use std::collections::HashMap;

#[test]
fn line_map_ascii() {
    let (s, map) = LineMap::normalize("hello\nworld\nend".into()).unwrap();
    assert_eq!(s, "hello\nworld\nend");
    assert_eq!(map.line_starts(), &[0, 6, 12, 15]);

    let mapping = [
        (0, 0, 0),
        (2, 0, 2),
        (5, 0, 5),
        (6, 1, 0),
        (11, 1, 5),
        (12, 2, 0),
    ];
    for (pos, line, col) in mapping {
        assert_eq!(map.line_col(pos), (line, col));
        assert_eq!(map.pos(line, col), pos);
    }
}

#[test]
fn line_map_unicode() {
    let (s, map) = LineMap::normalize("_A_ß_ℝ_💣_".into()).unwrap();
    assert_eq!(s, "_A_ß_ℝ_💣_");
    assert_eq!(map.line_starts(), &[0, 15]);
    assert_eq!(
        map.char_diffs(),
        &HashMap::from([(
            0u32,
            vec![
                (3u32, CodeUnitsDiff::One),
                (6, CodeUnitsDiff::Two),
                (10, CodeUnitsDiff::Two),
            ],
        )])
    );

    let mapping = [
        (0, 0, 0),
        (1, 0, 1),
        (2, 0, 2),
        (3, 0, 3),
        (5, 0, 4),
        (6, 0, 5),
        (9, 0, 6),
        (10, 0, 7),
        (14, 0, 9),
    ];
    for (pos, line, col) in mapping {
        assert_eq!(map.line_col(pos), (line, col));
        assert_eq!(map.pos(line, col), pos);
    }
}

#[test]
fn empty_text_has_two_line_starts() {
    let (s, map) = LineMap::normalize(String::new()).unwrap();
    assert_eq!(s, "");
    assert_eq!(map.line_starts(), &[0, 0]);
    assert!(map.char_diffs().is_empty());
    assert_eq!(map.line_col(0), (1, 0));
    assert_eq!(map.pos(0, 0), 0);
}

#[test]
fn trailing_newline_line_starts() {
    let (_, map) = LineMap::normalize("a\n".into()).unwrap();
    assert_eq!(map.line_starts(), &[0, 2, 2]);
    assert_eq!(map.line_col(1), (0, 1));
    assert_eq!(map.line_col(2), (2, 0));
    assert_eq!(map.pos(1, 0), 2);
}

#[test]
fn crlf_is_normalized() {
    let (s, map) = LineMap::normalize("a\r\nb".into()).unwrap();
    assert_eq!(s, "a\nb");
    assert_eq!(map.line_starts(), &[0, 2, 3]);
    assert_eq!(map.pos(1, 0), 2);
    let (s, _) = LineMap::normalize("x\ry".into()).unwrap();
    assert_eq!(s, "xy");
}

#[test]
fn unknown_line_counts_from_zero() {
    let (_, map) = LineMap::normalize("hello\nworld".into()).unwrap();
    assert_eq!(map.pos(7, 3), 3);
}

#[test]
fn column_past_line_end_extrapolates() {
    let (_, map) = LineMap::normalize("ab\ncd".into()).unwrap();
    assert_eq!(map.pos(0, 10), 10);
    assert_eq!(map.pos(1, 4), 7);
}

#[test]
fn diffs_on_second_line_only() {
    let (_, map) = LineMap::normalize("ab\nßc".into()).unwrap();
    assert_eq!(
        map.char_diffs(),
        &HashMap::from([(1u32, vec![(0u32, CodeUnitsDiff::One)])])
    );
    assert_eq!(map.line_col(5), (1, 1));
    assert_eq!(map.line_col(6), (2, 0));
    assert_eq!(map.pos(1, 2), 6);
    assert_eq!(map.pos(1, 1), 5);
}

#[test]
fn round_trip_over_every_boundary() {
    let text = "αβ\n💣x\r\nℝℝ\n\nend";
    let (s, map) = LineMap::normalize(text.into()).unwrap();
    for (p, _) in s.char_indices().chain(std::iter::once((s.len(), ' '))) {
        let (line, col) = map.line_col(p as u32);
        assert_eq!(map.pos(line, col), p as u32);
    }
}

#[test]
fn mid_codepoint_column_is_clamped() {
    let (_, map) = LineMap::normalize("ℝ".into()).unwrap();
    assert_eq!(map.line_col(1), (0, 0));
}

#[test]
fn code_units_diff_values() {
    assert_eq!(CodeUnitsDiff::One.value(), 1);
    assert_eq!(CodeUnitsDiff::Two.value(), 2);
}

#[test]
fn too_long_text_is_rejected() {
    let text = "a".repeat(MAX_FILE_LEN + 1);
    assert!(LineMap::normalize(text).is_none());
    let text = "a".repeat(MAX_FILE_LEN);
    assert!(LineMap::normalize(text).is_some());
}

#[test]
fn large_column_extrapolates() {
    let (_, map) = LineMap::normalize("ab\ncd".into()).unwrap();
    assert_eq!(map.pos(9, 200_000_000), 200_000_000);
    assert_eq!(map.pos(1, 4_000_000_000), 4_000_000_003);
    assert_eq!(map.checked_pos(1, u32::MAX - 3), Some(u32::MAX));
    assert_eq!(map.checked_pos(1, u32::MAX - 2), None);
}

#[test]
fn checked_pos_counts_diffs() {
    let (_, map) = LineMap::normalize("_ß_".into()).unwrap();
    assert_eq!(map.checked_pos(0, 2), Some(3));
    assert_eq!(map.checked_pos(0, u32::MAX), None);
    assert_eq!(map.checked_pos(0, u32::MAX - 1), Some(u32::MAX));
}
