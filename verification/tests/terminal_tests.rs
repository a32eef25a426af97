use std::ops::Range;
use terminal_emulator::ansi::{SelectGraphicRendition, TerminalOutput};
use terminal_emulator::color::{
    adjust_existing_color_range, ColorTag, ColorTracker, TerminalColor,
};
use terminal_emulator::ranges::{
    range_ends_overlapping, range_fully_conatins, range_starts_overlapping, ranges_overlap,
};
use terminal_emulator::terminal::{
    checked_buffer_position, cursor_to_buffer_position, insert_data_at_position, update_cursor,
    CursorState, TerminalEmulator,
};

#[test]
fn test_cursor_data_insert() {
    let mut buf = Vec::new();
    insert_data_at_position(b"asdf", 0, &mut buf);
    assert_eq!(buf, b"asdf");

    insert_data_at_position(b"123", 0, &mut buf);
    assert_eq!(buf, b"123f");

    insert_data_at_position(b"xyzw", 4, &mut buf);
    assert_eq!(buf, b"123fxyzw");

    insert_data_at_position(b"asdf", 2, &mut buf);
    assert_eq!(buf, b"12asdfzw");
}

#[test]
fn basic_color_tracker_test() {
    let mut color_tracker = ColorTracker::new();

    color_tracker.push_range(TerminalColor::Yellow, 3..10);
    let colors = color_tracker.colors();
    assert_eq!(
        colors,
        &[
            (0..3, TerminalColor::Default),
            (3..10, TerminalColor::Yellow),
            (10..usize::MAX, TerminalColor::Default),
        ]
    );

    color_tracker.push_range(TerminalColor::Blue, 5..7);
    let colors = color_tracker.colors();
    assert_eq!(
        colors,
        &[
            (0..3, TerminalColor::Default),
            (3..5, TerminalColor::Yellow),
            (5..7, TerminalColor::Blue),
            (7..10, TerminalColor::Yellow),
            (10..usize::MAX, TerminalColor::Default),
        ]
    );

    color_tracker.push_range(TerminalColor::Green, 7..9);
    let colors = color_tracker.colors();
    assert_eq!(
        colors,
        &[
            (0..3, TerminalColor::Default),
            (3..5, TerminalColor::Yellow),
            (5..7, TerminalColor::Blue),
            (7..9, TerminalColor::Green),
            (9..10, TerminalColor::Yellow),
            (10..usize::MAX, TerminalColor::Default),
        ]
    );

    color_tracker.push_range(TerminalColor::Red, 6..11);
    let colors = color_tracker.colors();
    assert_eq!(
        colors,
        &[
            (0..3, TerminalColor::Default),
            (3..5, TerminalColor::Yellow),
            (5..6, TerminalColor::Blue),
            (6..11, TerminalColor::Red),
            (11..usize::MAX, TerminalColor::Default),
        ]
    );
}

#[test]
fn test_range_overlap() {
    assert!(ranges_overlap(5..10, 7..9));
    assert!(ranges_overlap(5..10, 8..12));
    assert!(ranges_overlap(5..10, 3..6));
    assert!(ranges_overlap(5..10, 2..12));
    assert!(!ranges_overlap(5..10, 10..12));
    assert!(!ranges_overlap(5..10, 0..5));
}

#[test]
fn test_range_relations() {
    assert!(range_fully_conatins(&(2..12), &(5..10)));
    assert!(range_fully_conatins(&(5..10), &(5..10)));
    assert!(!range_fully_conatins(&(6..12), &(5..10)));
    assert!(range_starts_overlapping(&(6..12), &(5..10)));
    assert!(!range_starts_overlapping(&(5..12), &(5..10)));
    assert!(range_ends_overlapping(&(5..10), &(6..12)));
    assert!(!range_ends_overlapping(&(6..12), &(5..10)));
}

#[test]
fn test_insert_at_end_appends() {
    let mut buf = b"abc".to_vec();
    insert_data_at_position(b"", 3, &mut buf);
    assert_eq!(buf, b"abc");
    insert_data_at_position(b"de", 3, &mut buf);
    assert_eq!(buf, b"abcde");
    let mut empty: Vec<u8> = Vec::new();
    insert_data_at_position(b"", 0, &mut empty);
    assert!(empty.is_empty());
}

#[test]
fn test_insert_inside_overwrites_then_appends() {
    let mut buf = b"abcdef".to_vec();
    insert_data_at_position(b"XY", 1, &mut buf);
    assert_eq!(buf, b"aXYdef");
    insert_data_at_position(b"12345", 4, &mut buf);
    assert_eq!(buf, b"aXYd12345");
    insert_data_at_position(b"zz", 7, &mut buf);
    assert_eq!(buf, b"aXYd123zz");
}

#[test]
fn test_adjust_one_tag() {
    let yellow = ColorTag { start: 3, end: 10, color: TerminalColor::Yellow };

    let mut tag = yellow;
    let adj = adjust_existing_color_range(&mut tag, &(2..12));
    assert!(adj.should_delete);
    assert_eq!(adj.to_insert, None);

    let mut tag = yellow;
    let adj = adjust_existing_color_range(&mut tag, &(5..7));
    assert!(!adj.should_delete);
    assert_eq!(adj.to_insert, Some(ColorTag { start: 7, end: 10, color: TerminalColor::Yellow }));
    assert_eq!(tag, ColorTag { start: 3, end: 5, color: TerminalColor::Yellow });

    let mut tag = yellow;
    let adj = adjust_existing_color_range(&mut tag, &(3..7));
    assert!(adj.should_delete);
    assert_eq!(adj.to_insert, Some(ColorTag { start: 7, end: 10, color: TerminalColor::Yellow }));

    let mut tag = yellow;
    let adj = adjust_existing_color_range(&mut tag, &(5..10));
    assert!(!adj.should_delete);
    assert_eq!(adj.to_insert, None);
    assert_eq!(tag, ColorTag { start: 3, end: 5, color: TerminalColor::Yellow });

    let mut tag = yellow;
    let adj = adjust_existing_color_range(&mut tag, &(6..11));
    assert!(!adj.should_delete);
    assert_eq!(adj.to_insert, None);
    assert_eq!(tag, ColorTag { start: 3, end: 6, color: TerminalColor::Yellow });

    let mut tag = yellow;
    let adj = adjust_existing_color_range(&mut tag, &(1..4));
    assert!(!adj.should_delete);
    assert_eq!(adj.to_insert, None);
    assert_eq!(tag, ColorTag { start: 4, end: 10, color: TerminalColor::Yellow });
}

#[test]
fn test_tracker_whole_and_empty_ranges() {
    let mut tracker = ColorTracker::new();
    assert_eq!(tracker.colors(), vec![(0..usize::MAX, TerminalColor::Default)]);
    tracker.push_range(TerminalColor::Red, 4..4);
    assert_eq!(tracker.colors(), vec![(0..usize::MAX, TerminalColor::Default)]);
    tracker.push_range(TerminalColor::Red, 4..8);
    tracker.push_range(TerminalColor::Cyan, 0..usize::MAX);
    assert_eq!(tracker.colors(), vec![(0..usize::MAX, TerminalColor::Cyan)]);
    tracker.push_range(TerminalColor::Red, 0..2);
    tracker.push_range(TerminalColor::Red, 2..4);
    assert_eq!(
        tracker.colors(),
        vec![
            (0..2, TerminalColor::Red),
            (2..4, TerminalColor::Red),
            (4..usize::MAX, TerminalColor::Cyan),
        ]
    );
}

#[test]
fn test_from_sgr() {
    assert_eq!(TerminalColor::from_sgr(SelectGraphicRendition::Reset), Some(TerminalColor::Default));
    assert_eq!(TerminalColor::from_sgr(SelectGraphicRendition::Magenta), Some(TerminalColor::Magenta));
    assert_eq!(TerminalColor::from_sgr(SelectGraphicRendition::BrightRed), None);
    assert_eq!(TerminalColor::from_sgr(SelectGraphicRendition::Unknown(1)), None);
}

#[test]
fn test_update_cursor() {
    let mut cursor = CursorState { x: 2, y: 1, color: TerminalColor::Green };
    update_cursor(b"ab", &mut cursor);
    assert_eq!(cursor, CursorState { x: 4, y: 1, color: TerminalColor::Green });
    update_cursor(b"c\n\nde", &mut cursor);
    assert_eq!(cursor, CursorState { x: 2, y: 3, color: TerminalColor::Green });
    update_cursor(b"", &mut cursor);
    assert_eq!(cursor, CursorState { x: 2, y: 3, color: TerminalColor::Green });
}

#[test]
fn test_cursor_to_buffer_position() {
    let at = |x: usize, y: usize| CursorState { x, y, color: TerminalColor::Default };
    assert_eq!(cursor_to_buffer_position(&at(0, 0), b""), 0);
    assert_eq!(cursor_to_buffer_position(&at(2, 0), b"abc\nde"), 2);
    assert_eq!(cursor_to_buffer_position(&at(1, 1), b"abc\nde"), 5);
    assert_eq!(cursor_to_buffer_position(&at(0, 2), b"abc\nde"), 7);
    assert_eq!(cursor_to_buffer_position(&at(0, 9), b"abc\nde"), 7);
    assert_eq!(cursor_to_buffer_position(&at(4, 4), b""), 5);
    assert_eq!(cursor_to_buffer_position(&at(0, 1), b"abc\n"), 4);
    assert_eq!(cursor_to_buffer_position(&at(0, 2), b"abc\n"), 5);
    assert_eq!(checked_buffer_position(&at(3, 1), b"abc\nde"), Some(7));
    assert_eq!(checked_buffer_position(&at(usize::MAX, 1), b"abc\nde"), None);
}

#[test]
fn test_emulator_writes_text() {
    let mut emulator = TerminalEmulator::new();
    assert!(emulator.data().is_empty());
    assert_eq!(emulator.cursor_pos(), CursorState { x: 0, y: 0, color: TerminalColor::Default });
    assert_eq!(emulator.colored_data(), vec![(0..usize::MAX, TerminalColor::Default)]);

    assert!(emulator.read_bytes(b"hi\n\x1b[31mred"));
    assert_eq!(emulator.data(), b"hi\nred");
    assert_eq!(emulator.cursor_pos(), CursorState { x: 3, y: 1, color: TerminalColor::Red });
    let expected: Vec<(Range<usize>, TerminalColor)> = vec![
        (0..3, TerminalColor::Default),
        (3..6, TerminalColor::Red),
        (6..usize::MAX, TerminalColor::Default),
    ];
    assert_eq!(emulator.colored_data(), expected);

    assert!(emulator.read_bytes(b"\x1b[2;1H\x1b[mXY"));
    assert_eq!(emulator.data(), b"hXYred");
    assert_eq!(emulator.cursor_pos(), CursorState { x: 3, y: 0, color: TerminalColor::Default });
}

#[test]
fn test_emulator_apply_each_operation() {
    let mut emulator = TerminalEmulator::new();
    emulator.apply(&TerminalOutput::Data(b"ab\ncd\nef".to_vec()));
    emulator.apply(&TerminalOutput::Sgr(SelectGraphicRendition::Blue));
    emulator.apply(&TerminalOutput::Sgr(SelectGraphicRendition::Unknown(4)));
    emulator.apply(&TerminalOutput::Sgr(SelectGraphicRendition::BrightBlue));
    assert_eq!(emulator.cursor_pos(), CursorState { x: 2, y: 2, color: TerminalColor::Blue });

    emulator.apply(&TerminalOutput::SetCursorPos { x: Some(2), y: None });
    assert_eq!(emulator.cursor_pos(), CursorState { x: 1, y: 2, color: TerminalColor::Blue });
    emulator.apply(&TerminalOutput::SetCursorPos { x: None, y: Some(2) });
    assert_eq!(emulator.cursor_pos(), CursorState { x: 1, y: 1, color: TerminalColor::Blue });
    emulator.apply(&TerminalOutput::Invalid);
    assert_eq!(emulator.data(), b"ab\ncd\nef");

    emulator.apply(&TerminalOutput::ClearForwards);
    assert_eq!(emulator.data(), b"ab\nc");
    assert_eq!(
        emulator.colored_data(),
        vec![(0..4, TerminalColor::Default), (4..usize::MAX, TerminalColor::Blue)]
    );

    emulator.apply(&TerminalOutput::SetCursorPos { x: Some(2), y: Some(1) });
    emulator.apply(&TerminalOutput::ClearBackwards);
    assert_eq!(emulator.data(), b"b\nc");
    assert_eq!(
        emulator.colored_data(),
        vec![(0..4, TerminalColor::Default), (4..usize::MAX, TerminalColor::Blue)]
    );

    emulator.apply(&TerminalOutput::SetCursorPos { x: Some(0), y: Some(0) });
    assert_eq!(emulator.cursor_pos(), CursorState { x: 0, y: 0, color: TerminalColor::Blue });
    emulator.apply(&TerminalOutput::ClearAll);
    assert!(emulator.data().is_empty());
    assert_eq!(emulator.colored_data(), vec![(0..usize::MAX, TerminalColor::Blue)]);
}

#[test]
fn test_emulator_refuses_text_beyond_the_end() {
    let mut emulator = TerminalEmulator::new();
    assert!(emulator.try_apply(&TerminalOutput::Data(b"abc".to_vec())));
    assert!(emulator.try_apply(&TerminalOutput::SetCursorPos { x: Some(9), y: None }));
    assert!(!emulator.can_apply(&TerminalOutput::Data(b"x".to_vec())));
    assert!(!emulator.try_apply(&TerminalOutput::Data(b"x".to_vec())));
    assert_eq!(emulator.data(), b"abc");
    assert_eq!(emulator.cursor_pos(), CursorState { x: 8, y: 0, color: TerminalColor::Default });
    assert!(emulator.try_apply(&TerminalOutput::ClearForwards));
    assert_eq!(emulator.data(), b"abc");
    assert!(emulator.try_apply(&TerminalOutput::ClearBackwards));
    assert!(emulator.data().is_empty());

    let mut other = TerminalEmulator::new();
    assert!(!other.read_bytes(b"ab\x1b[5;5Hxy\x1b[31m"));
    assert_eq!(other.data(), b"ab");
    assert_eq!(other.cursor_pos(), CursorState { x: 4, y: 4, color: TerminalColor::Default });
}

#[test]
fn test_emulator_keeps_sequences_across_chunks() {
    let mut emulator = TerminalEmulator::new();
    assert!(emulator.read_bytes(b"a\x1b[3"));
    assert!(emulator.read_bytes(b"3mb"));
    assert_eq!(emulator.data(), b"ab");
    assert_eq!(
        emulator.colored_data(),
        vec![
            (0..1, TerminalColor::Default),
            (1..2, TerminalColor::Yellow),
            (2..usize::MAX, TerminalColor::Default),
        ]
    );
}
