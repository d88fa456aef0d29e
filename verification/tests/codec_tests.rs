use tabstore::num::num_to_string;
use tabstore::num::parse_num_str;
use tabstore::table_to_lines;
use tabstore::ColumnEntry;
use tabstore::Table;
use tabstore::TableCell;
use tabstore::TableEntry;
use tabstore::TableParser;

fn two_col_table() -> Table {
    Table {
        name: None,
        col_names: vec![
            ColumnEntry { col_name: "id".to_string(), col_type: TableCell::Num(None) },
            ColumnEntry { col_name: "name".to_string(), col_type: TableCell::Str(None) },
        ],
        all: vec![
            TableEntry {
                col_data: vec![TableCell::Num(Some(1)), TableCell::Str(Some("alpha".to_string()))],
            },
            TableEntry {
                col_data: vec![TableCell::Num(Some(-7)), TableCell::Str(Some("beta".to_string()))],
            },
        ],
    }
}

#[test]
fn serialized_lines_format() {
    let t = Table {
        name: None,
        col_names: vec![ColumnEntry {
            col_name: "id".to_string(),
            col_type: TableCell::Num(None),
        }],
        all: vec![TableEntry { col_data: vec![TableCell::Num(Some(1))] }],
    };
    let lines = table_to_lines(&t);
    assert_eq!(
        lines,
        vec![
            "ColDescStart".to_string(),
            "\"id\"".to_string(),
            "\"Num\"".to_string(),
            "ColDescEnd".to_string(),
            "RStart".to_string(),
            "\"1\"".to_string(),
            "REnd".to_string(),
        ]
    );
}

#[test]
fn null_serializes_as_null_text() {
    let t = Table {
        name: None,
        col_names: vec![ColumnEntry {
            col_name: "s".to_string(),
            col_type: TableCell::Str(None),
        }],
        all: vec![TableEntry { col_data: vec![TableCell::Str(None)] }],
    };
    let lines = table_to_lines(&t);
    assert_eq!(lines[5], "\"NULL\"");
}

#[test]
fn round_trip_recovers_schema_and_rows() {
    let t = two_col_table();
    let lines = table_to_lines(&t);
    let mut p = TableParser::default();
    for l in lines {
        p.next(l).unwrap();
    }
    assert_eq!(p.table.col_names, t.col_names);
    assert_eq!(p.table.all.len(), t.all.len());
    for (a, b) in p.table.all.iter().zip(t.all.iter()) {
        assert_eq!(a.col_data, b.col_data);
    }
}

#[test]
fn cell_to_text_formats() {
    assert_eq!(TableCell::Num(Some(-123)).to_text(), "-123");
    assert_eq!(TableCell::Num(Some(0)).to_text(), "0");
    assert_eq!(TableCell::Num(None).to_text(), "NULL");
    assert_eq!(TableCell::Str(Some("hey".to_string())).to_text(), "hey");
    assert_eq!(TableCell::Str(None).to_text(), "NULL");
}

#[test]
fn cell_get_len_counts_serialized_text() {
    assert_eq!(TableCell::Num(Some(-123)).get_len(), 4);
    assert_eq!(TableCell::Num(Some(7)).get_len(), 1);
    assert_eq!(TableCell::Num(None).get_len(), 4);
    assert_eq!(TableCell::Str(Some("abc".to_string())).get_len(), 3);
    assert_eq!(TableCell::Str(None).get_len(), 4);
}

#[test]
fn write_type_names_the_variants() {
    let c = ColumnEntry { col_name: "a".to_string(), col_type: TableCell::Num(None) };
    assert_eq!(c.write_type(), "Num");
    let c = ColumnEntry { col_name: "b".to_string(), col_type: TableCell::Str(None) };
    assert_eq!(c.write_type(), "String");
}

#[test]
fn numeric_text_round_trip_and_edges() {
    assert_eq!(num_to_string(0), "0");
    assert_eq!(num_to_string(9223372036854775807), "9223372036854775807");
    assert_eq!(num_to_string(i64::MIN), "-9223372036854775808");
    assert_eq!(parse_num_str("0"), Some(0));
    assert_eq!(parse_num_str("007"), Some(7));
    assert_eq!(parse_num_str("+42"), Some(42));
    assert_eq!(parse_num_str("-9223372036854775808"), Some(i64::MIN));
    assert_eq!(parse_num_str("9223372036854775807"), Some(i64::MAX));
    assert_eq!(parse_num_str("9223372036854775808"), None);
    assert_eq!(parse_num_str("-9223372036854775809"), None);
    assert_eq!(parse_num_str(""), None);
    assert_eq!(parse_num_str("-"), None);
    assert_eq!(parse_num_str("+"), None);
    assert_eq!(parse_num_str("12a"), None);
    assert_eq!(parse_num_str(" 12"), None);
}
