use frame_view_tools::schema::MS_BETWEEN_PRESENTS;
use frame_view_tools::{decode_capture, decode_table, schema, Cell, ColumnKind, DecodeError};

fn default_cell(kind: ColumnKind) -> &'static str {
    match kind {
        ColumnKind::Text => "x",
        ColumnKind::Float => "1.5",
        ColumnKind::Uint => "7",
        ColumnKind::Flag => "1",
    }
}

/// A log with the declared header and one row per entry of `ms`.
fn capture(ms: &[&str]) -> String {
    let cols = schema();
    let header: Vec<String> = cols.iter().map(|c| c.name.clone()).collect();
    let mut text = header.join(",");
    text.push('\n');
    for m in ms {
        let row: Vec<&str> = cols
            .iter()
            .enumerate()
            .map(|(i, c)| if i == MS_BETWEEN_PRESENTS { *m } else { default_cell(c.kind) })
            .collect();
        text.push_str(&row.join(","));
        text.push('\n');
    }
    text
}

fn column_named(name: &str) -> usize {
    schema().iter().position(|c| c.name == name).unwrap()
}

#[test]
fn decodes_rows_in_order() {
    let recs = decode_capture(capture(&["10.0", "20.0", "30"]).as_bytes()).unwrap();
    assert_eq!(recs.len(), 3);
    let ms: Vec<Option<String>> = recs.iter().map(|r| r.ms_between_presents()).collect();
    assert_eq!(
        ms,
        vec![Some("10.0".to_string()), Some("20.0".to_string()), Some("30".to_string())]
    );
    let r = &recs[0];
    assert_eq!(r.len(), schema().len());
    assert_eq!(r.cell(0), &Cell::Text("x".to_string()));
    assert_eq!(r.cell(column_named("AllowsTearing")), &Cell::Flag(Some(true)));
    assert_eq!(r.cell(column_named("ProcessID")), &Cell::Uint(Some(7)));
    assert_eq!(r.cell(column_named("GPU0Clk(MHz)")), &Cell::Float(Some("1.5".to_string())));
}

#[test]
fn header_only_gives_no_records() {
    let recs = decode_capture(capture(&[]).as_bytes()).unwrap();
    assert!(recs.is_empty());
}

#[test]
fn na_row_decodes_among_valid_rows() {
    let recs = decode_capture(capture(&["10.0", "NA", "20.0"]).as_bytes()).unwrap();
    assert_eq!(recs.len(), 3);
    assert_eq!(recs[1].ms_between_presents(), None);
    assert_eq!(recs[2].ms_between_presents(), Some("20.0".to_string()));
}

#[test]
fn missing_column_is_schema_mismatch() {
    let text = capture(&["10.0"]).replacen("MsBetweenPresents", "MsBetweenPresent", 1);
    assert_eq!(
        decode_capture(text.as_bytes()),
        Err(DecodeError::SchemaMismatch { column: "MsBetweenPresents".to_string() })
    );
}

#[test]
fn missing_column_reported_before_bad_rows() {
    let text = capture(&["abc", "10.0"]).replacen("GPU,", "Gpu,", 1) + "short,row\n";
    assert_eq!(
        decode_capture(text.as_bytes()),
        Err(DecodeError::SchemaMismatch { column: "GPU".to_string() })
    );
}

#[test]
fn first_missing_column_is_named() {
    let text = capture(&[]).replacen("Dropped", "D", 1).replacen("Runtime", "R", 1);
    assert_eq!(
        decode_capture(text.as_bytes()),
        Err(DecodeError::SchemaMismatch { column: "Runtime".to_string() })
    );
}

#[test]
fn empty_input_lacks_every_column() {
    assert_eq!(
        decode_capture(b""),
        Err(DecodeError::SchemaMismatch { column: "Application".to_string() })
    );
}

#[test]
fn header_order_does_not_matter() {
    let cols = schema();
    let mut order: Vec<usize> = (0..cols.len()).collect();
    order.reverse();
    let header: Vec<String> = order.iter().map(|&i| cols[i].name.clone()).collect();
    let row: Vec<&str> = order
        .iter()
        .map(|&i| if i == MS_BETWEEN_PRESENTS { "12.5" } else { default_cell(cols[i].kind) })
        .collect();
    let text = format!("{}\n{}\n", header.join(","), row.join(","));
    let recs = decode_capture(text.as_bytes()).unwrap();
    assert_eq!(recs[0].ms_between_presents(), Some("12.5".to_string()));
    assert_eq!(recs[0].cell(0), &Cell::Text("x".to_string()));
}

#[test]
fn undeclared_header_column_is_schema_mismatch() {
    let text = capture(&["8"]);
    let mut lines: Vec<String> = text.lines().map(String::from).collect();
    lines[0].push_str(",Extra");
    lines[1].push_str(",whatever");
    assert_eq!(
        decode_capture(lines.join("\n").as_bytes()),
        Err(DecodeError::SchemaMismatch { column: "Extra".to_string() })
    );
}

#[test]
fn unterminated_quote_at_end_closes_the_field() {
    let text = capture(&["8"]);
    let mut lines: Vec<String> = text.lines().map(String::from).collect();
    lines[1] = lines[1].replacen("x,", "\"x,", 1);
    assert_eq!(
        decode_capture(lines.join("\n").as_bytes()),
        Err(DecodeError::RowFormat { row: Some(1) })
    );
}

#[test]
fn short_row_is_row_format_error() {
    let text = capture(&["10.0"]) + "a,b,c\n";
    assert_eq!(decode_capture(text.as_bytes()), Err(DecodeError::RowFormat { row: Some(2) }));
}

#[test]
fn invalid_utf8_is_row_format_error() {
    let mut bytes = capture(&["10.0", "11.0"]).into_bytes();
    let last_row = bytes.len() - 2;
    bytes[last_row] = 0xff;
    assert_eq!(decode_capture(&bytes), Err(DecodeError::RowFormat { row: Some(2) }));
}

#[test]
fn bad_number_is_sentinel_parse_error() {
    let text = capture(&["10.0", "fast"]);
    assert_eq!(
        decode_capture(text.as_bytes()),
        Err(DecodeError::SentinelParse { row: 2, column: "MsBetweenPresents".to_string() })
    );
}

#[test]
fn bad_uint_is_sentinel_parse_error() {
    let text = capture(&["10.0"]).replacen(",7,", ",-7,", 1);
    assert_eq!(
        decode_capture(text.as_bytes()),
        Err(DecodeError::SentinelParse { row: 1, column: "ProcessID".to_string() })
    );
}

#[test]
fn first_failing_row_wins() {
    let text = capture(&["bad", "10.0"]) + "a,b\n";
    assert_eq!(
        decode_capture(text.as_bytes()),
        Err(DecodeError::SentinelParse { row: 1, column: "MsBetweenPresents".to_string() })
    );
}

#[test]
fn bad_flag_is_absent_not_error() {
    let text = capture(&["10.0"]).replacen(",1,7,", ",2,7,", 1);
    let recs = decode_capture(text.as_bytes()).unwrap();
    assert_eq!(recs[0].cell(column_named("AllowsTearing")), &Cell::Flag(None));
}

#[test]
fn decode_table_reads_cells() {
    let cols = schema();
    let header: Vec<String> = cols.iter().map(|c| c.name.clone()).collect();
    let mut row: Vec<String> = cols.iter().map(|c| default_cell(c.kind).to_string()).collect();
    row[MS_BETWEEN_PRESENTS] = " Error ".to_string();
    let recs = decode_table(&vec![header, row]).unwrap();
    assert_eq!(recs.len(), 1);
    assert_eq!(recs[0].ms_between_presents(), None);
    assert_eq!(decode_table(&vec![]), Err(DecodeError::SchemaMismatch {
        column: "Application".to_string()
    }));
}

#[test]
fn repeated_header_name_is_schema_mismatch() {
    let text = capture(&["8"]);
    let mut lines: Vec<String> = text.lines().map(String::from).collect();
    lines[0].push_str(",MsBetweenPresents");
    lines[1].push_str(",99");
    assert_eq!(
        decode_capture(lines.join("\n").as_bytes()),
        Err(DecodeError::SchemaMismatch { column: "MsBetweenPresents".to_string() })
    );
}

#[test]
fn repeated_application_column_is_schema_mismatch() {
    let text = capture(&["8"]);
    let mut lines: Vec<String> = text.lines().map(String::from).collect();
    lines[0] = lines[0].replacen("GPU,", "Application,", 1);
    assert_eq!(
        decode_capture(lines.join("\n").as_bytes()),
        Err(DecodeError::SchemaMismatch { column: "Application".to_string() })
    );
}
