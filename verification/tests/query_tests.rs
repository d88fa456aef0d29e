use tabstore::select;
use tabstore::CellTest;
use tabstore::Closure;
use tabstore::CmpOp;
use tabstore::ColumnEntry;
use tabstore::Criteria;
use tabstore::Table;
use tabstore::TableCell;
use tabstore::TableEntry;
use tabstore::TableLikeError;

fn hei_asd_table(rows: Vec<(Option<i64>, Option<&str>)>) -> Table {
    Table {
        name: None,
        col_names: vec![
            ColumnEntry { col_name: "Hei".to_string(), col_type: TableCell::Num(None) },
            ColumnEntry { col_name: "asd".to_string(), col_type: TableCell::Str(None) },
        ],
        all: rows
            .into_iter()
            .map(|(n, s)| TableEntry {
                col_data: vec![
                    TableCell::Num(n),
                    TableCell::Str(s.map(|x| x.to_string())),
                ],
            })
            .collect(),
    }
}

#[test]
fn projection_and_predicate_scenario() {
    // Schema {Hei:Num, asd:Str}, rows [(23,"asd"), (46,NULL)];
    // predicate Hei > 30 over [Hei], projection [asd].
    let table = hei_asd_table(vec![(Some(23), Some("asd")), (Some(46), None)]);
    let criteria = Criteria {
        cls: Closure::leaf(vec!["Hei".to_string()], CellTest::NumCmp(0, CmpOp::Gt, 30)),
        re: vec!["asd".to_string()],
    };
    let out = select(&table, &criteria).unwrap();
    assert_eq!(out.name, None);
    assert_eq!(
        out.col_names,
        vec![ColumnEntry { col_name: "asd".to_string(), col_type: TableCell::Str(None) }]
    );
    assert_eq!(out.all.len(), 1);
    assert_eq!(out.all[0].col_data, vec![TableCell::Str(None)]);
}

#[test]
fn and_combinator_slices_contiguously() {
    // p1 over [Hei], p2 over [asd]: each sub-predicate must see
    // exactly and only its own column.
    let table = hei_asd_table(vec![
        (Some(46), Some("x")),
        (Some(46), Some("y")),
        (Some(20), Some("x")),
        (None, Some("x")),
    ]);
    let p1 = Closure::leaf(vec!["Hei".to_string()], CellTest::NumCmp(0, CmpOp::Gt, 30));
    let p2 = Closure::leaf(vec!["asd".to_string()], CellTest::StrEq(0, "x".to_string()));
    let both = Closure::and(p1, p2);
    assert_eq!(both.col_name, vec!["Hei".to_string(), "asd".to_string()]);
    let criteria = Criteria { cls: both, re: vec!["Hei".to_string()] };
    let out = select(&table, &criteria).unwrap();
    assert_eq!(out.all.len(), 1);
    assert_eq!(out.all[0].col_data, vec![TableCell::Num(Some(46))]);
}

#[test]
fn or_combinator_slices_contiguously() {
    let table = hei_asd_table(vec![
        (Some(46), Some("y")),
        (Some(20), Some("x")),
        (Some(20), Some("y")),
    ]);
    let p1 = Closure::leaf(vec!["Hei".to_string()], CellTest::NumCmp(0, CmpOp::Gt, 30));
    let p2 = Closure::leaf(vec!["asd".to_string()], CellTest::StrEq(0, "x".to_string()));
    let either = Closure::or(p1, p2);
    let criteria = Criteria { cls: either, re: vec!["Hei".to_string()] };
    let out = select(&table, &criteria).unwrap();
    assert_eq!(out.all.len(), 2);
    assert_eq!(out.all[0].col_data, vec![TableCell::Num(Some(46))]);
    assert_eq!(out.all[1].col_data, vec![TableCell::Num(Some(20))]);
}

#[test]
fn unknown_projection_column_fails() {
    let table = hei_asd_table(vec![(Some(1), Some("a"))]);
    let criteria = Criteria {
        cls: Closure::leaf(vec!["Hei".to_string()], CellTest::True),
        re: vec!["nope".to_string()],
    };
    assert_eq!(select(&table, &criteria).unwrap_err(), TableLikeError::UnknownColumn);
}

#[test]
fn unknown_predicate_column_fails() {
    let table = hei_asd_table(vec![(Some(1), Some("a"))]);
    let criteria = Criteria {
        cls: Closure::leaf(vec!["missing".to_string()], CellTest::True),
        re: vec!["asd".to_string()],
    };
    assert_eq!(select(&table, &criteria).unwrap_err(), TableLikeError::UnknownColumn);
}

#[test]
fn projection_allows_duplicates_in_order() {
    let table = hei_asd_table(vec![(Some(5), Some("a"))]);
    let criteria = Criteria {
        cls: Closure::leaf(vec![], CellTest::True),
        re: vec!["asd".to_string(), "Hei".to_string(), "asd".to_string()],
    };
    let out = select(&table, &criteria).unwrap();
    assert_eq!(out.col_names.len(), 3);
    assert_eq!(out.col_names[0].col_name, "asd");
    assert_eq!(out.col_names[1].col_name, "Hei");
    assert_eq!(out.col_names[2].col_name, "asd");
    assert_eq!(
        out.all[0].col_data,
        vec![
            TableCell::Str(Some("a".to_string())),
            TableCell::Num(Some(5)),
            TableCell::Str(Some("a".to_string())),
        ]
    );
}

#[test]
fn null_cells_fail_numeric_predicates() {
    let table = hei_asd_table(vec![(None, Some("a"))]);
    let criteria = Criteria {
        cls: Closure::leaf(vec!["Hei".to_string()], CellTest::NumCmp(0, CmpOp::Gt, 30)),
        re: vec!["asd".to_string()],
    };
    let out = select(&table, &criteria).unwrap();
    assert_eq!(out.all.len(), 0);
    // But IsNull matches them.
    let criteria = Criteria {
        cls: Closure::leaf(vec!["Hei".to_string()], CellTest::IsNull(0)),
        re: vec!["asd".to_string()],
    };
    let out = select(&table, &criteria).unwrap();
    assert_eq!(out.all.len(), 1);
}
