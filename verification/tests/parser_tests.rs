use tabstore::ColumnEntry;
use tabstore::ParseEvent;
use tabstore::ParseState;
use tabstore::TableCell;
use tabstore::TableLikeError;
use tabstore::TableParser;

fn feed(p: &mut TableParser, lines: &[&str]) {
    for l in lines {
        p.next(l.to_string()).unwrap();
    }
}

#[test]
fn schema_is_parsed_in_order() {
    let mut p = TableParser::default();
    assert_eq!(p.next("ColDescStart".to_string()), Ok(ParseEvent::Progress));
    assert_eq!(p.next("\"id\"".to_string()), Ok(ParseEvent::Progress));
    assert_eq!(p.next("\"Num\"".to_string()), Ok(ParseEvent::Progress));
    assert_eq!(p.next("\"name\"".to_string()), Ok(ParseEvent::Progress));
    assert_eq!(p.next("\"String\"".to_string()), Ok(ParseEvent::Progress));
    assert_eq!(p.next("ColDescEnd".to_string()), Ok(ParseEvent::SchemaComplete));
    assert_eq!(
        p.table.col_names,
        vec![
            ColumnEntry { col_name: "id".to_string(), col_type: TableCell::Num(None) },
            ColumnEntry { col_name: "name".to_string(), col_type: TableCell::Str(None) },
        ]
    );
    assert_eq!(p.state, ParseState::ExpectingRowStart);
}

#[test]
fn row_block_completes_a_row() {
    let mut p = TableParser::default();
    feed(&mut p, &["ColDescStart", "\"id\"", "\"Num\"", "ColDescEnd", "RStart", "\"41\""]);
    assert_eq!(p.next("REnd".to_string()), Ok(ParseEvent::RowComplete));
    assert_eq!(p.table.all.len(), 1);
    assert_eq!(p.table.all[0].col_data, vec![TableCell::Num(Some(41))]);
    assert_eq!(p.state, ParseState::ExpectingRowStart);
}

#[test]
fn state_machine_totality() {
    // From each of the five states, only the documented input class
    // is accepted; everything else is a syntax error.
    let s = ParseState::ExpectingColStart;
    assert_eq!(ParseState::next(&s, "ColDescStart"), Ok(ParseState::ExpectingColName));
    assert!(ParseState::next(&s, "RStart").is_err());
    assert!(ParseState::next(&s, "\"tok\"").is_err());

    let s = ParseState::ExpectingColName;
    assert_eq!(ParseState::next(&s, "\"tok\""), Ok(ParseState::ExpectingColValue));
    assert_eq!(ParseState::next(&s, "ColDescEnd"), Ok(ParseState::ExpectingRowStart));
    assert!(ParseState::next(&s, "ColDescStart").is_err());
    // A single quote character is not a quoted token.
    assert!(ParseState::next(&s, "\"").is_err());

    let s = ParseState::ExpectingColValue;
    assert_eq!(ParseState::next(&s, "\"String\""), Ok(ParseState::ExpectingColName));
    assert_eq!(ParseState::next(&s, "\"Num\""), Ok(ParseState::ExpectingColName));
    assert!(ParseState::next(&s, "\"Int\"").is_err());
    assert!(ParseState::next(&s, "ColDescEnd").is_err());

    let s = ParseState::ExpectingRowStart;
    assert_eq!(ParseState::next(&s, "RStart"), Ok(ParseState::ExpectingCellValue));
    assert!(ParseState::next(&s, "REnd").is_err());
    assert!(ParseState::next(&s, "\"tok\"").is_err());

    let s = ParseState::ExpectingCellValue;
    assert_eq!(ParseState::next(&s, "\"tok\""), Ok(ParseState::ExpectingCellValue));
    assert_eq!(ParseState::next(&s, "REnd"), Ok(ParseState::ExpectingRowStart));
    assert!(ParseState::next(&s, "RStart").is_err());
}

#[test]
fn syntax_error_leaves_parser_unchanged() {
    let mut p = TableParser::default();
    assert_eq!(p.next("bogus".to_string()), Err(TableLikeError::SyntaxError));
    assert_eq!(p.state, ParseState::ExpectingColStart);
    assert_eq!(p.table.col_names.len(), 0);
    assert_eq!(p.table.all.len(), 0);
    assert_eq!(p.buffer.len(), 0);
}

#[test]
fn row_length_mismatch_is_rejected() {
    let mut p = TableParser::default();
    feed(
        &mut p,
        &["ColDescStart", "\"a\"", "\"Num\"", "\"b\"", "\"Num\"", "ColDescEnd", "RStart", "\"1\""],
    );
    // One cell against a two-column schema.
    assert_eq!(p.next("REnd".to_string()), Err(TableLikeError::LengthMismatch));
    // Schema and state are untouched; no row was appended.
    assert_eq!(p.table.col_names.len(), 2);
    assert_eq!(p.table.all.len(), 0);
    assert_eq!(p.state, ParseState::ExpectingCellValue);
    // The buffered cell is still there: one more cell completes the row.
    assert_eq!(p.next("\"2\"".to_string()), Ok(ParseEvent::Progress));
    assert_eq!(p.next("REnd".to_string()), Ok(ParseEvent::RowComplete));
    assert_eq!(
        p.table.all[0].col_data,
        vec![TableCell::Num(Some(1)), TableCell::Num(Some(2))]
    );
}

#[test]
fn decode_error_on_non_numeric_text() {
    let mut p = TableParser::default();
    feed(&mut p, &["ColDescStart", "\"id\"", "\"Num\"", "ColDescEnd", "RStart", "\"abc\""]);
    assert_eq!(p.next("REnd".to_string()), Err(TableLikeError::DecodeError));
    assert_eq!(p.table.all.len(), 0);
}

#[test]
fn parser_determinism_same_lines_same_table() {
    let lines = [
        "ColDescStart",
        "\"x\"",
        "\"String\"",
        "ColDescEnd",
        "RStart",
        "\"one\"",
        "REnd",
        "RStart",
        "\"two\"",
        "REnd",
    ];
    let mut p1 = TableParser::default();
    let mut p2 = TableParser::default();
    feed(&mut p1, &lines);
    // Feed the same sequence in two batches.
    feed(&mut p2, &lines[..4]);
    feed(&mut p2, &lines[4..]);
    assert_eq!(p1.table.col_names, p2.table.col_names);
    assert_eq!(p1.table.all.len(), p2.table.all.len());
    for (a, b) in p1.table.all.iter().zip(p2.table.all.iter()) {
        assert_eq!(a.col_data, b.col_data);
    }
    assert_eq!(p1.state, p2.state);
}

#[test]
fn parser_accepts_more_row_blocks_after_rows() {
    let mut p = TableParser::default();
    feed(&mut p, &["ColDescStart", "\"n\"", "\"Num\"", "ColDescEnd"]);
    for i in 0..3 {
        feed(&mut p, &["RStart"]);
        p.next(format!("\"{}\"", i)).unwrap();
        assert_eq!(p.next("REnd".to_string()), Ok(ParseEvent::RowComplete));
    }
    assert_eq!(p.table.all.len(), 3);
    assert_eq!(p.table.all[2].col_data, vec![TableCell::Num(Some(2))]);
}

#[test]
fn null_text_reads_back_as_string_payload() {
    // The format cannot tell NULL from the literal text NULL: a
    // string column reads it back as a present payload.
    let mut p = TableParser::default();
    feed(
        &mut p,
        &["ColDescStart", "\"s\"", "\"String\"", "ColDescEnd", "RStart", "\"NULL\"", "REnd"],
    );
    assert_eq!(
        p.table.all[0].col_data,
        vec![TableCell::Str(Some("NULL".to_string()))]
    );
}
