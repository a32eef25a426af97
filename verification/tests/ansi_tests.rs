use terminal_emulator::ansi::{
    extract_param, is_csi_intermediate, is_csi_param, is_csi_terminator, parse_param_as_usize,
    split_params_into_semicolon_delimited_usize, SelectGraphicRendition, TerminalOutput,
};
use terminal_emulator::parser::{AnsiParser, CsiParser, CsiParserState};

#[test]
fn test_set_cursor_position() {
    let mut output_buffer = AnsiParser::new();
    let parsed = output_buffer.push(b"\x1b[32;15H");
    assert_eq!(parsed.len(), 1);
    assert!(matches!(
        parsed[0],
        TerminalOutput::SetCursorPos {
            x: Some(32),
            y: Some(15)
        }
    ));

    let parsed = output_buffer.push(b"\x1b[;32H");
    assert_eq!(parsed.len(), 1);
    assert!(matches!(
        parsed[0],
        TerminalOutput::SetCursorPos {
            x: Some(1),
            y: Some(32)
        }
    ));

    let parsed = output_buffer.push(b"\x1b[32H");
    assert_eq!(parsed.len(), 1);
    assert!(matches!(
        parsed[0],
        TerminalOutput::SetCursorPos {
            x: Some(32),
            y: Some(1)
        }
    ));

    let parsed = output_buffer.push(b"\x1b[32;H");
    assert_eq!(parsed.len(), 1);
    assert!(matches!(
        parsed[0],
        TerminalOutput::SetCursorPos {
            x: Some(32),
            y: Some(1)
        }
    ));

    let parsed = output_buffer.push(b"\x1b[H");
    assert_eq!(parsed.len(), 1);
    assert!(matches!(
        parsed[0],
        TerminalOutput::SetCursorPos {
            x: Some(1),
            y: Some(1)
        }
    ));

    let parsed = output_buffer.push(b"\x1b[;H");
    assert_eq!(parsed.len(), 1);
    assert!(matches!(
        parsed[0],
        TerminalOutput::SetCursorPos {
            x: Some(1),
            y: Some(1)
        }
    ));
}

#[test]
fn test_clear() {
    let mut output_buffer = AnsiParser::new();
    let parsed = output_buffer.push(b"\x1b[J");
    assert_eq!(parsed.len(), 1);
    assert!(matches!(parsed[0], TerminalOutput::ClearForwards,));

    let mut output_buffer = AnsiParser::new();
    let parsed = output_buffer.push(b"\x1b[0J");
    assert_eq!(parsed.len(), 1);
    assert!(matches!(parsed[0], TerminalOutput::ClearForwards,));

    let mut output_buffer = AnsiParser::new();
    let parsed = output_buffer.push(b"\x1b[1J");
    assert_eq!(parsed.len(), 1);
    assert!(matches!(parsed[0], TerminalOutput::ClearBackwards,));

    let mut output_buffer = AnsiParser::new();
    let parsed = output_buffer.push(b"\x1b[2J");
    assert_eq!(parsed.len(), 1);
    assert!(matches!(parsed[0], TerminalOutput::ClearAll,));
}

#[test]
fn test_invalid_clear() {
    let mut output_buffer = AnsiParser::new();
    let parsed = output_buffer.push(b"\x1b[8J");
    assert_eq!(parsed.len(), 1);
    assert!(matches!(parsed[0], TerminalOutput::Invalid,));
}

#[test]
fn test_invalid_csi() {
    let mut output_buffer = AnsiParser::new();
    let parsed = output_buffer.push(b"\x1b[-23;H");
    assert!(matches!(parsed[0], TerminalOutput::Invalid));

    let mut output_buffer = AnsiParser::new();
    let parsed = output_buffer.push(b"\x1b[asdf");
    assert!(matches!(parsed[0], TerminalOutput::Invalid));
}

#[test]
fn test_parsing_unknown_csi() {
    let mut parser = CsiParser::new();
    for b in b"0123456789:;<=>?!\"#$%&'()*+,-./}" {
        parser.push(*b);
    }

    assert_eq!(parser.params, b"0123456789:;<=>?");
    assert_eq!(parser.intermediates, b"!\"#$%&'()*+,-./");
    assert!(matches!(parser.state, CsiParserState::Finished(b'}')));
}

#[test]
fn test_parsing_invalid_csi() {
    let mut parser = CsiParser::new();
    for b in b"0$0" {
        parser.push(*b);
    }

    assert!(matches!(parser.state, CsiParserState::Invalid));
    parser.push(b'm');
    assert!(matches!(parser.state, CsiParserState::InvalidFinished));
}

#[test]
fn test_empty_sgr() {
    let mut output_buffer = AnsiParser::new();
    let parsed = output_buffer.push(b"\x1b[m");
    assert!(matches!(
        parsed[0],
        TerminalOutput::Sgr(SelectGraphicRendition::Reset)
    ));
}

#[test]
fn test_color_parsing() {
    let mut output_buffer = AnsiParser::new();

    let mut test_input = String::new();
    for i in 30..=37 {
        test_input.push_str(&format!("\x1b[{}m", i));
        test_input.push('a');
    }

    for i in 90..=97 {
        test_input.push_str(&format!("\x1b[{}m", i));
        test_input.push('a');
    }

    let output = output_buffer.push(test_input.as_bytes());
    assert_eq!(
        output,
        &[
            TerminalOutput::Sgr(SelectGraphicRendition::Black),
            TerminalOutput::Data(b"a".into()),
            TerminalOutput::Sgr(SelectGraphicRendition::Red),
            TerminalOutput::Data(b"a".into()),
            TerminalOutput::Sgr(SelectGraphicRendition::Green),
            TerminalOutput::Data(b"a".into()),
            TerminalOutput::Sgr(SelectGraphicRendition::Yellow),
            TerminalOutput::Data(b"a".into()),
            TerminalOutput::Sgr(SelectGraphicRendition::Blue),
            TerminalOutput::Data(b"a".into()),
            TerminalOutput::Sgr(SelectGraphicRendition::Magenta),
            TerminalOutput::Data(b"a".into()),
            TerminalOutput::Sgr(SelectGraphicRendition::Cyan),
            TerminalOutput::Data(b"a".into()),
            TerminalOutput::Sgr(SelectGraphicRendition::White),
            TerminalOutput::Data(b"a".into()),
            TerminalOutput::Sgr(SelectGraphicRendition::BrightBlack),
            TerminalOutput::Data(b"a".into()),
            TerminalOutput::Sgr(SelectGraphicRendition::BrightRed),
            TerminalOutput::Data(b"a".into()),
            TerminalOutput::Sgr(SelectGraphicRendition::BrightGreen),
            TerminalOutput::Data(b"a".into()),
            TerminalOutput::Sgr(SelectGraphicRendition::BrightYellow),
            TerminalOutput::Data(b"a".into()),
            TerminalOutput::Sgr(SelectGraphicRendition::BrightBlue),
            TerminalOutput::Data(b"a".into()),
            TerminalOutput::Sgr(SelectGraphicRendition::BrightMagenta),
            TerminalOutput::Data(b"a".into()),
            TerminalOutput::Sgr(SelectGraphicRendition::BrightCyan),
            TerminalOutput::Data(b"a".into()),
            TerminalOutput::Sgr(SelectGraphicRendition::BrightWhite),
            TerminalOutput::Data(b"a".into()),
        ]
    );
}

#[test]
fn test_clear_all_with_three() {
    let mut parser = AnsiParser::new();
    assert_eq!(parser.push(b"\x1b[3J"), vec![TerminalOutput::ClearAll]);
}

#[test]
fn test_invalid_sequence_is_dropped_up_to_its_terminator() {
    let mut parser = AnsiParser::new();
    assert_eq!(parser.push(b"\x1b[-23;H"), vec![TerminalOutput::Invalid]);
    assert_eq!(parser.push(b"ok"), vec![TerminalOutput::Data(b"ok".to_vec())]);
}

#[test]
fn test_unknown_terminator_then_data() {
    let mut parser = AnsiParser::new();
    assert_eq!(
        parser.push(b"\x1b[asdf"),
        vec![TerminalOutput::Invalid, TerminalOutput::Data(b"sdf".to_vec())]
    );
}

#[test]
fn test_invalid_byte_in_sequence() {
    let mut parser = AnsiParser::new();
    assert_eq!(parser.push(b"\x1b[1\x01"), vec![]);
    assert_eq!(parser.push(b"23"), vec![]);
    assert_eq!(parser.push(b"mx"), vec![
        TerminalOutput::Invalid,
        TerminalOutput::Data(b"x".to_vec())
    ]);
}

#[test]
fn test_cursor_column() {
    let mut parser = AnsiParser::new();
    assert_eq!(
        parser.push(b"\x1b[7G"),
        vec![TerminalOutput::SetCursorPos { x: Some(7), y: None }]
    );
    assert_eq!(
        parser.push(b"\x1b[G"),
        vec![TerminalOutput::SetCursorPos { x: Some(1), y: None }]
    );
    assert_eq!(parser.push(b"\x1b[1;2G"), vec![TerminalOutput::Invalid]);
}

#[test]
fn test_sgr_lists() {
    let mut parser = AnsiParser::new();
    assert_eq!(
        parser.push(b"\x1b[1;31m"),
        vec![
            TerminalOutput::Sgr(SelectGraphicRendition::Unknown(1)),
            TerminalOutput::Sgr(SelectGraphicRendition::Red),
        ]
    );
    assert_eq!(
        parser.push(b"\x1b[;34m"),
        vec![TerminalOutput::Sgr(SelectGraphicRendition::Blue)]
    );
    assert_eq!(
        parser.push(b"\x1b[0m"),
        vec![TerminalOutput::Sgr(SelectGraphicRendition::Reset)]
    );
    assert_eq!(parser.push(b"\x1b[3:1m"), vec![TerminalOutput::Invalid]);
}

#[test]
fn test_parameter_too_large() {
    let mut parser = AnsiParser::new();
    assert_eq!(
        parser.push(b"\x1b[99999999999999999999999999H"),
        vec![TerminalOutput::Invalid]
    );
    assert_eq!(
        parser.push(b"\x1b[18446744073709551615G"),
        vec![TerminalOutput::SetCursorPos { x: Some(usize::MAX), y: None }]
    );
    assert_eq!(
        parser.push(b"\x1b[18446744073709551616G"),
        vec![TerminalOutput::Invalid]
    );
}

#[test]
fn test_unrecognized_escape_is_silent() {
    let mut parser = AnsiParser::new();
    assert_eq!(
        parser.push(b"ab\x1bXcd"),
        vec![
            TerminalOutput::Data(b"ab".to_vec()),
            TerminalOutput::Data(b"cd".to_vec()),
        ]
    );
}

#[test]
fn test_literal_run_is_one_data() {
    let mut parser = AnsiParser::new();
    assert_eq!(
        parser.push(b"hello\nworld\x1b[2Jagain"),
        vec![
            TerminalOutput::Data(b"hello\nworld".to_vec()),
            TerminalOutput::ClearAll,
            TerminalOutput::Data(b"again".to_vec()),
        ]
    );
    assert_eq!(parser.push(b""), vec![]);
}

#[test]
fn test_sequence_split_over_chunks() {
    let stream: &[u8] = b"ab\x1b[32;15Hcd\x1b[31m";
    let mut whole_parser = AnsiParser::new();
    let whole = whole_parser.push(stream);
    for cut in [2usize, 3, 4, 5, 6, 7, 8, 9, 10, 12, 13, 14, 15, 16] {
        let mut parser = AnsiParser::new();
        let mut pieces = parser.push(&stream[..cut]);
        pieces.extend(parser.push(&stream[cut..]));
        assert_eq!(pieces, whole);
    }
}

#[test]
fn test_cut_inside_literal_run_gives_two_runs() {
    let mut parser = AnsiParser::new();
    assert_eq!(parser.push(b"ab"), vec![TerminalOutput::Data(b"ab".to_vec())]);
    assert_eq!(parser.push(b"cd"), vec![TerminalOutput::Data(b"cd".to_vec())]);
}

#[test]
fn test_byte_classes() {
    assert!(is_csi_param(0x30) && is_csi_param(0x3f));
    assert!(!is_csi_param(0x2f) && !is_csi_param(0x40));
    assert!(is_csi_intermediate(0x20) && is_csi_intermediate(0x2f));
    assert!(!is_csi_intermediate(0x1f) && !is_csi_intermediate(0x30));
    assert!(is_csi_terminator(0x40) && is_csi_terminator(0x7d));
    assert!(!is_csi_terminator(0x3f) && !is_csi_terminator(0x7e));
}

#[test]
fn test_parse_param() {
    assert_eq!(parse_param_as_usize(b""), Ok(None));
    assert_eq!(parse_param_as_usize(b"0"), Ok(Some(0)));
    assert_eq!(parse_param_as_usize(b"0042"), Ok(Some(42)));
    assert_eq!(parse_param_as_usize(b"12a"), Err(()));
    assert_eq!(parse_param_as_usize(b"-1"), Err(()));
    assert_eq!(parse_param_as_usize(b"1;2"), Err(()));
}

#[test]
fn test_split_params() {
    assert_eq!(split_params_into_semicolon_delimited_usize(b""), Ok(vec![None]));
    assert_eq!(
        split_params_into_semicolon_delimited_usize(b"1;;3"),
        Ok(vec![Some(1), None, Some(3)])
    );
    assert_eq!(
        split_params_into_semicolon_delimited_usize(b"7;"),
        Ok(vec![Some(7), None])
    );
    assert_eq!(split_params_into_semicolon_delimited_usize(b"1;x;3"), Err(()));
    assert_eq!(split_params_into_semicolon_delimited_usize(b"1;2;?"), Err(()));
}

#[test]
fn test_extract_param() {
    let params = [Some(4usize), None];
    assert_eq!(extract_param(0, &params), Some(4));
    assert_eq!(extract_param(1, &params), None);
    assert_eq!(extract_param(2, &params), None);
}

#[test]
fn test_from_usize() {
    assert_eq!(SelectGraphicRendition::from_usize(0), SelectGraphicRendition::Reset);
    assert_eq!(SelectGraphicRendition::from_usize(33), SelectGraphicRendition::Yellow);
    assert_eq!(SelectGraphicRendition::from_usize(97), SelectGraphicRendition::BrightWhite);
    assert_eq!(SelectGraphicRendition::from_usize(38), SelectGraphicRendition::Unknown(38));
    assert_eq!(SelectGraphicRendition::from_usize(1), SelectGraphicRendition::Unknown(1));
}
