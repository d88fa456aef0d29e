use tabstore::ColumnEntry;
use tabstore::PrintOption;
use tabstore::Table;
use tabstore::TableCell;
use tabstore::TableEntry;
use tabstore::TableLikeError;
use tabstore::MAX_MEM_LIM;

fn num_table(n: usize) -> Table {
    Table {
        name: Some("nums".to_string()),
        col_names: vec![ColumnEntry {
            col_name: "n".to_string(),
            col_type: TableCell::Num(None),
        }],
        all: (0..n)
            .map(|i| TableEntry { col_data: vec![TableCell::Num(Some(i as i64))] })
            .collect(),
    }
}

#[test]
fn capacity_enforcement() {
    // Flushing 4097 rows into a memory table under the 4096-row
    // limit fails, and the destination holds no rows afterwards.
    let src = num_table(MAX_MEM_LIM + 1);
    let mut dst = Table::default();
    assert_eq!(dst.flush(&src), Err(TableLikeError::CapacityExceeded));
    assert_eq!(dst.all.len(), 0);
}

#[test]
fn flush_at_the_limit_succeeds() {
    let src = num_table(MAX_MEM_LIM);
    let mut dst = Table::default();
    assert_eq!(dst.flush(&src), Ok(()));
    assert_eq!(dst.col_names, src.col_names);
    assert_eq!(dst.all.len(), MAX_MEM_LIM);
    assert_eq!(dst.all[4095].col_data, vec![TableCell::Num(Some(4095))]);
}

#[test]
fn flush_replaces_prior_contents() {
    let src = num_table(2);
    let mut dst = num_table(5);
    dst.flush(&src).unwrap();
    assert_eq!(dst.all.len(), 2);
}

#[test]
fn add_rows_appends_without_validation() {
    let mut t = num_table(1);
    let odd = TableEntry {
        col_data: vec![TableCell::Str(Some("x".to_string())), TableCell::Num(Some(9))],
    };
    assert_eq!(t.add_rows(vec![odd.clone()]), Ok(()));
    assert_eq!(t.all.len(), 2);
    assert_eq!(t.all[1].col_data, odd.col_data);
}

#[test]
fn getters_return_the_held_data() {
    let t = num_table(2);
    assert_eq!(t.get_name(), Some("nums"));
    assert_eq!(Table::default().get_name(), None);
    let cols = t.get_cols().unwrap();
    assert_eq!(cols, t.col_names);
    let rows = t.get_rows();
    assert_eq!(rows.len(), 2);
    assert_eq!(rows[1].col_data, vec![TableCell::Num(Some(1))]);
}

#[test]
fn memory_to_memory_conversion_is_refused() {
    let mut t = num_table(1);
    assert_eq!(t.move_to_memory().unwrap_err(), TableLikeError::Other);
    // The table itself is untouched.
    assert_eq!(t.all.len(), 1);
}

#[test]
fn print_table_full_layout() {
    let t = Table {
        name: None,
        col_names: vec![ColumnEntry {
            col_name: "ab".to_string(),
            col_type: TableCell::Num(None),
        }],
        all: vec![TableEntry { col_data: vec![TableCell::Num(Some(5))] }],
    };
    let mut widths = vec![0usize];
    let text = t.print_table(&mut widths, PrintOption::FullTable);
    assert_eq!(widths, vec![2usize]);
    assert_eq!(text, "+----+\n| ab |\n+----+\n| 5  |\n+----+");
}

#[test]
fn print_table_widths_fit_the_widest_cell() {
    let t = Table {
        name: None,
        col_names: vec![ColumnEntry {
            col_name: "n".to_string(),
            col_type: TableCell::Num(None),
        }],
        all: vec![
            TableEntry { col_data: vec![TableCell::Num(Some(7))] },
            TableEntry { col_data: vec![TableCell::Num(Some(-1234))] },
        ],
    };
    let mut widths = vec![0usize];
    let text = t.print_table(&mut widths, PrintOption::FullTable);
    assert_eq!(widths, vec![5usize]);
    assert_eq!(
        text,
        "+-------+\n| n     |\n+-------+\n| 7     |\n| -1234 |\n+-------+"
    );
}

#[test]
fn print_table_mid_block_has_no_borders() {
    let t = Table {
        name: None,
        col_names: vec![ColumnEntry {
            col_name: "n".to_string(),
            col_type: TableCell::Num(None),
        }],
        all: vec![TableEntry { col_data: vec![TableCell::Num(Some(42))] }],
    };
    let mut widths = vec![2usize];
    let text = t.print_table(&mut widths, PrintOption::MidTable);
    assert_eq!(text, "| 42 |");
}
