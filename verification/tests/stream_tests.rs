use tabstore::table_to_lines;
use tabstore::ColumnEntry;
use tabstore::Iter;
use tabstore::ParseEvent;
use tabstore::Table;
use tabstore::TableCell;
use tabstore::TableEntry;
use tabstore::TableLikeError;
use tabstore::TableParser;

fn advance_past_schema(lines: &[String]) -> (TableParser, usize) {
    let mut p = TableParser::default();
    let mut pos = 0;
    while pos < lines.len() {
        let ev = p.next(lines[pos].clone()).unwrap();
        pos += 1;
        if ev == ParseEvent::SchemaComplete {
            break;
        }
    }
    (p, pos)
}

#[test]
fn streaming_yields_the_same_rows_as_a_full_parse() {
    let t = Table {
        name: None,
        col_names: vec![
            ColumnEntry { col_name: "n".to_string(), col_type: TableCell::Num(None) },
            ColumnEntry { col_name: "s".to_string(), col_type: TableCell::Str(None) },
        ],
        all: vec![
            TableEntry {
                col_data: vec![TableCell::Num(Some(1)), TableCell::Str(Some("a".to_string()))],
            },
            TableEntry {
                col_data: vec![TableCell::Num(Some(2)), TableCell::Str(Some("b".to_string()))],
            },
            TableEntry {
                col_data: vec![TableCell::Num(Some(3)), TableCell::Str(Some("c".to_string()))],
            },
        ],
    };
    let lines = table_to_lines(&t);

    // Full parse into memory.
    let mut full = TableParser::default();
    for l in lines.clone() {
        full.next(l).unwrap();
    }

    // Lazy iteration from just past the schema block.
    let (par, pos) = advance_past_schema(&lines);
    let mut it = Iter::new(par, lines, pos);
    let mut got = Vec::new();
    while let Some(item) = it.next() {
        got.push(item.unwrap());
    }

    assert_eq!(got.len(), full.table.all.len());
    for (a, b) in got.iter().zip(full.table.all.iter()) {
        assert_eq!(a.col_data, b.col_data);
    }
}

#[test]
fn streaming_ends_after_schema_only_file() {
    let lines: Vec<String> =
        ["ColDescStart", "\"n\"", "\"Num\"", "ColDescEnd"].iter().map(|s| s.to_string()).collect();
    let (par, pos) = advance_past_schema(&lines);
    let mut it = Iter::new(par, lines, pos);
    assert!(it.next().is_none());
    assert!(it.next().is_none());
}

#[test]
fn streaming_yields_one_error_then_ends() {
    let lines: Vec<String> = [
        "ColDescStart",
        "\"n\"",
        "\"Num\"",
        "ColDescEnd",
        "RStart",
        "\"1\"",
        "REnd",
        "RStart",
        "\"oops\"",
        "REnd",
        "RStart",
        "\"3\"",
        "REnd",
    ]
    .iter()
    .map(|s| s.to_string())
    .collect();
    let (par, pos) = advance_past_schema(&lines);
    let mut it = Iter::new(par, lines, pos);
    let first = it.next().unwrap().unwrap();
    assert_eq!(first.col_data, vec![TableCell::Num(Some(1))]);
    let second = it.next().unwrap();
    assert_eq!(second.unwrap_err(), TableLikeError::DecodeError);
    // The sequence has ended: nothing after the single error item.
    assert!(it.next().is_none());
    assert!(it.next().is_none());
}
