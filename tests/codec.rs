use frame_view_tools::numeric::{is_float_text, parse_u64};
use frame_view_tools::text::trim_text;
use frame_view_tools::{decode_cell, encode_cell, Cell, ColumnKind, MalformedNumber};

fn float(s: &str) -> Cell {
    Cell::Float(Some(s.to_string()))
}

#[test]
fn float_cell_keeps_trimmed_literal() {
    assert_eq!(decode_cell(ColumnKind::Float, " 16.6667 "), Ok(float("16.6667")));
    assert_eq!(decode_cell(ColumnKind::Float, "1e-3"), Ok(float("1e-3")));
    assert_eq!(decode_cell(ColumnKind::Float, "-0.5"), Ok(float("-0.5")));
}

#[test]
fn sentinels_are_absent_for_numeric_kinds() {
    for s in ["Error", "NA", "  NA", "Error\t"] {
        assert_eq!(decode_cell(ColumnKind::Float, s), Ok(Cell::Float(None)));
        assert_eq!(decode_cell(ColumnKind::Uint, s), Ok(Cell::Uint(None)));
    }
}

#[test]
fn sentinels_are_case_sensitive() {
    let err = Err(MalformedNumber { kind: ColumnKind::Float });
    assert_eq!(decode_cell(ColumnKind::Float, "na"), err);
    assert_eq!(decode_cell(ColumnKind::Float, "ERROR"), err);
}

#[test]
fn malformed_float_is_an_error() {
    for s in ["abc", "", "1.2.3", ".", "1e", "e5", "1,5", "0x10"] {
        assert_eq!(
            decode_cell(ColumnKind::Float, s),
            Err(MalformedNumber { kind: ColumnKind::Float }),
            "{s:?}"
        );
    }
}

#[test]
fn float_grammar_matches_std() {
    let cases = [
        "0", "10.0", ".5", "5.", "+3", "-3", "1E5", "1e+5", "2.5e-3", "inf", "-Infinity",
        "NaN", "nan", "iNf", "", ".", "e", "1e", "1e+", "--1", "+-1", "in", "infinit",
        "1.0.0", "1_000", " 1", "١",
    ];
    for s in cases {
        assert_eq!(is_float_text(s), s.parse::<f64>().is_ok(), "{s:?}");
    }
}

#[test]
fn uint_cells() {
    assert_eq!(decode_cell(ColumnKind::Uint, "4242"), Ok(Cell::Uint(Some(4242))));
    assert_eq!(decode_cell(ColumnKind::Uint, " +7 "), Ok(Cell::Uint(Some(7))));
    assert_eq!(
        decode_cell(ColumnKind::Uint, "18446744073709551615"),
        Ok(Cell::Uint(Some(u64::MAX)))
    );
    let err = Err(MalformedNumber { kind: ColumnKind::Uint });
    assert_eq!(decode_cell(ColumnKind::Uint, "18446744073709551616"), err);
    assert_eq!(decode_cell(ColumnKind::Uint, "-1"), err);
    assert_eq!(decode_cell(ColumnKind::Uint, "1.5"), err);
    assert_eq!(decode_cell(ColumnKind::Uint, "+"), err);
    assert_eq!(decode_cell(ColumnKind::Uint, ""), err);
}

#[test]
fn uint_parser_matches_std() {
    let cases = [
        "0", "007", "+1", "-0", "+", "", "12a", "99999999999999999999", "18446744073709551615",
        "18446744073709551616", " 5",
    ];
    for s in cases {
        assert_eq!(parse_u64(s), s.parse::<u64>().ok(), "{s:?}");
    }
}

#[test]
fn flag_cells_never_fail() {
    assert_eq!(decode_cell(ColumnKind::Flag, "1"), Ok(Cell::Flag(Some(true))));
    assert_eq!(decode_cell(ColumnKind::Flag, "0"), Ok(Cell::Flag(Some(false))));
    assert_eq!(decode_cell(ColumnKind::Flag, " 1 "), Ok(Cell::Flag(Some(true))));
    for s in ["", "NA", "Error", "2", "true", "01"] {
        assert_eq!(decode_cell(ColumnKind::Flag, s), Ok(Cell::Flag(None)), "{s:?}");
    }
}

#[test]
fn text_cells_are_verbatim() {
    assert_eq!(
        decode_cell(ColumnKind::Text, "  Game.exe "),
        Ok(Cell::Text("  Game.exe ".to_string()))
    );
    assert_eq!(decode_cell(ColumnKind::Text, "NA"), Ok(Cell::Text("NA".to_string())));
}

#[test]
fn trim_matches_std() {
    for s in ["", "  ", " a b ", "\u{3000}x\u{85}", "\t\n1\r", "y"] {
        assert_eq!(trim_text(s), s.trim(), "{s:?}");
    }
}

#[test]
fn encode_writes_values_and_absence() {
    assert_eq!(encode_cell(&Cell::Uint(Some(1234))), "1234");
    assert_eq!(encode_cell(&Cell::Uint(Some(0))), "0");
    assert_eq!(encode_cell(&Cell::Uint(None)), "NA");
    assert_eq!(encode_cell(&Cell::Float(None)), "NA");
    assert_eq!(encode_cell(&float("2.5")), "2.5");
    assert_eq!(encode_cell(&Cell::Flag(Some(true))), "1");
    assert_eq!(encode_cell(&Cell::Flag(Some(false))), "0");
    assert_eq!(encode_cell(&Cell::Flag(None)), "NA");
}

#[test]
fn decode_encode_round_trip() {
    let cases = [
        (ColumnKind::Float, " 16.25 "),
        (ColumnKind::Float, "NA"),
        (ColumnKind::Float, "-inf"),
        (ColumnKind::Uint, "+0042"),
        (ColumnKind::Uint, "18446744073709551615"),
        (ColumnKind::Uint, "Error"),
        (ColumnKind::Flag, "1"),
        (ColumnKind::Flag, "x"),
        (ColumnKind::Text, " name "),
    ];
    for (kind, s) in cases {
        let first = decode_cell(kind, s).unwrap();
        let again = decode_cell(kind, &encode_cell(&first)).unwrap();
        assert_eq!(first, again, "{s:?}");
    }
}

#[test]
fn float_value_survives_round_trip() {
    let first = decode_cell(ColumnKind::Float, "16.666666666666668").unwrap();
    let again = decode_cell(ColumnKind::Float, &encode_cell(&first)).unwrap();
    match (first, again) {
        (Cell::Float(Some(a)), Cell::Float(Some(b))) => {
            assert_eq!(a.parse::<f64>().unwrap(), b.parse::<f64>().unwrap());
            assert_eq!(a.parse::<f64>().unwrap(), 16.666666666666668);
        }
        other => panic!("unexpected {other:?}"),
    }
}
