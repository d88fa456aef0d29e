//! Serializing a table into its line-oriented persisted form, and the
//! proof that re-parsing those lines recovers the table.

use crate::cell::cell_text;
use crate::cell::is_present;
use crate::cell::row_present;
use crate::cell::CellV;
use crate::cell::TableCell;
use crate::error::TableLikeError;
use crate::num::parse_num;
use crate::parse::col_end_text;
use crate::parse::col_start_text;
use crate::parse::drain_cols;
use crate::parse::decode_cell;
use crate::parse::decode_row;
use crate::parse::decode_row_to;
use crate::parse::is_quoted_tok;
use crate::parse::quote_of;
use crate::parse::rend_text;
use crate::parse::rstart_text;
use crate::parse::run;
use crate::parse::step;
use crate::parse::strip_tok;
use crate::parse::lemma_run_split;
use crate::parse::ParseState;
use crate::parse::ParserV;
use crate::parse::StepOut;
use crate::num::lemma_parse_dec;
use crate::table::num_type_text;
use crate::table::row_matches;
use crate::table::rows_conform;
use crate::table::schema_bare;
use crate::table::str_type_text;
use crate::table::type_text;
use crate::table::ColV;
use crate::table::Table;
use crate::table::TableEntry;
use crate::table::TableV;
use vstd::prelude::*;

verus! {

/// The two lines a schema slot serializes as: its quoted name, then
/// its quoted type name.
pub open spec fn col_pair_lines(c: ColV) -> Seq<Seq<char>> {
    seq![quote_of(c.name), quote_of(type_text(c.ty))]
}

/// The schema body lines, one name/type pair per column, in order.
pub open spec fn cols_lines(cols: Seq<ColV>) -> Seq<Seq<char>>
    decreases cols.len(),
{
    if cols.len() == 0 {
        Seq::empty()
    } else {
        cols_lines(cols.drop_last()) + col_pair_lines(cols.last())
    }
}

/// The whole schema block.
pub open spec fn schema_lines(cols: Seq<ColV>) -> Seq<Seq<char>> {
    seq![col_start_text()] + cols_lines(cols) + seq![col_end_text()]
}

/// The serialized texts of a row's cells, in order.
pub open spec fn cell_texts(r: Seq<CellV>) -> Seq<Seq<char>> {
    Seq::new(r.len(), |i: int| cell_text(r[i]))
}

/// The cell token lines of one row, in order.
pub open spec fn cell_lines(r: Seq<CellV>) -> Seq<Seq<char>>
    decreases r.len(),
{
    if r.len() == 0 {
        Seq::empty()
    } else {
        cell_lines(r.drop_last()).push(quote_of(cell_text(r.last())))
    }
}

/// One row block.
pub open spec fn row_lines(r: Seq<CellV>) -> Seq<Seq<char>> {
    seq![rstart_text()] + cell_lines(r) + seq![rend_text()]
}

/// All row blocks, in order.
pub open spec fn rows_lines(rows: Seq<Seq<CellV>>) -> Seq<Seq<char>>
    decreases rows.len(),
{
    if rows.len() == 0 {
        Seq::empty()
    } else {
        rows_lines(rows.drop_last()) + row_lines(rows.last())
    }
}

/// The persisted form of a whole table: the schema block, then one
/// row block per row, in order.
pub open spec fn table_lines(t: TableV) -> Seq<Seq<char>> {
    schema_lines(t.cols) + rows_lines(t.rows)
}

/// Wraps a text in the two quote characters of a token line.
fn quote_str(s: &str) -> (r: String)
    ensures
        r@ == quote_of(s@),
{
    let q = String::from_str("\"");
    let r = q.concat(s).concat("\"");
    proof {
        reveal_strlit("\"");
        assert(r@ =~= quote_of(s@));
    }
    r
}

/// Appends one row block to a line buffer.
fn push_row_lines(out: &mut Vec<String>, row: &TableEntry)
    ensures
        final(out).deep_view() == old(out).deep_view() + row_lines(row@),
{
    let ghost base = out.deep_view();
    let start = String::from_str("RStart");
    proof {
        reveal_strlit("RStart");
        assert(start@ =~= rstart_text());
    }
    out.push(start);
    let n = row.col_data.len();
    let mut i: usize = 0;
    proof {
        assert(out.deep_view() =~= base + seq![rstart_text()] + cell_lines(row@.take(0)));
    }
    while i < n
        invariant
            i <= n,
            n == row.col_data.len(),
            out.deep_view() == base + seq![rstart_text()] + cell_lines(row@.take(i as int)),
        decreases n - i,
    {
        let t = row.col_data[i].to_text();
        let line = quote_str(t.as_str());
        let ghost pre = out.deep_view();
        out.push(line);
        proof {
            assert(line@ == quote_of(cell_text(row@[i as int])));
            assert(row@.take(i + 1).drop_last() =~= row@.take(i as int));
            assert(row@.take(i + 1).last() == row@[i as int]);
            assert(cell_lines(row@.take(i + 1)) == cell_lines(row@.take(i as int)).push(
                quote_of(cell_text(row@[i as int])),
            ));
            assert(out.deep_view() =~= pre.push(line@));
            assert(out.deep_view() =~= base + seq![rstart_text()] + cell_lines(row@.take(i + 1)));
        }
        i = i + 1;
    }
    let end = String::from_str("REnd");
    proof {
        reveal_strlit("REnd");
        assert(end@ =~= rend_text());
    }
    let ghost pre = out.deep_view();
    out.push(end);
    proof {
        assert(row@.take(n as int) =~= row@);
        assert(out.deep_view() =~= pre.push(rend_text()));
        assert(out.deep_view() =~= base + row_lines(row@));
    }
}

/// Serializes rows alone, one row block each, in order: the lines an
/// append of rows adds at the end of a file.
pub fn rows_to_lines(rows: &Vec<TableEntry>) -> (r: Vec<String>)
    ensures
        r.deep_view() == rows_lines(rows.deep_view()),
{
    let mut out: Vec<String> = Vec::new();
    let n = rows.len();
    let mut i: usize = 0;
    proof {
        assert(out.deep_view() =~= rows_lines(rows.deep_view().take(0)));
    }
    while i < n
        invariant
            i <= n,
            n == rows.len(),
            out.deep_view() == rows_lines(rows.deep_view().take(i as int)),
        decreases n - i,
    {
        push_row_lines(&mut out, &rows[i]);
        proof {
            assert(rows.deep_view().take(i + 1).drop_last() =~= rows.deep_view().take(i as int));
            assert(rows.deep_view().take(i + 1).last() == rows.deep_view()[i as int]);
        }
        i = i + 1;
    }
    proof {
        assert(rows.deep_view().take(n as int) =~= rows.deep_view());
    }
    out
}

/// Serializes a whole table into its persisted lines.
pub fn table_to_lines(t: &Table) -> (r: Vec<String>)
    ensures
        r.deep_view() == table_lines(t@),
{
    let mut out: Vec<String> = Vec::new();
    let start = String::from_str("ColDescStart");
    proof {
        reveal_strlit("ColDescStart");
        assert(start@ =~= col_start_text());
    }
    out.push(start);
    let n = t.col_names.len();
    let mut i: usize = 0;
    proof {
        assert(out.deep_view() =~= seq![col_start_text()] + cols_lines(t@.cols.take(0)));
    }
    while i < n
        invariant
            i <= n,
            n == t.col_names.len(),
            out.deep_view() == seq![col_start_text()] + cols_lines(t@.cols.take(i as int)),
        decreases n - i,
    {
        let ghost pre = out.deep_view();
        let name_line = quote_str(t.col_names[i].col_name.as_str());
        out.push(name_line);
        let type_line = quote_str(t.col_names[i].write_type());
        out.push(type_line);
        proof {
            assert(name_line@ == quote_of(t@.cols[i as int].name));
            assert(type_line@ == quote_of(type_text(t@.cols[i as int].ty)));
            assert(t@.cols.take(i + 1).drop_last() =~= t@.cols.take(i as int));
            assert(t@.cols.take(i + 1).last() == t@.cols[i as int]);
            assert(cols_lines(t@.cols.take(i + 1)) == cols_lines(t@.cols.take(i as int))
                + col_pair_lines(t@.cols[i as int]));
            assert(col_pair_lines(t@.cols[i as int]) =~= seq![name_line@, type_line@]);
            assert(out.deep_view() =~= pre.push(name_line@).push(type_line@));
            assert(out.deep_view() =~= seq![col_start_text()] + cols_lines(t@.cols.take(i + 1)));
        }
        i = i + 1;
    }
    let end = String::from_str("ColDescEnd");
    proof {
        reveal_strlit("ColDescEnd");
        assert(end@ =~= col_end_text());
    }
    out.push(end);
    proof {
        assert(t@.cols.take(n as int) =~= t@.cols);
        assert(out.deep_view() =~= schema_lines(t@.cols));
    }
    let m = t.all.len();
    let mut j: usize = 0;
    proof {
        assert(out.deep_view() =~= schema_lines(t@.cols) + rows_lines(t@.rows.take(0)));
    }
    while j < m
        invariant
            j <= m,
            m == t.all.len(),
            out.deep_view() == schema_lines(t@.cols) + rows_lines(t@.rows.take(j as int)),
        decreases m - j,
    {
        push_row_lines(&mut out, &t.all[j]);
        proof {
            assert(t@.rows.take(j + 1).drop_last() =~= t@.rows.take(j as int));
            assert(t@.rows.take(j + 1).last() == t@.rows[j as int]);
            assert(out.deep_view() =~= schema_lines(t@.cols) + rows_lines(t@.rows.take(j + 1)));
        }
        j = j + 1;
    }
    proof {
        assert(t@.rows.take(m as int) =~= t@.rows);
    }
    out
}

/// Feeding a single line is a single step.
proof fn lemma_run_one(p: ParserV, l: Seq<char>)
    ensures
        run(p, seq![l]) == (match step(p, l) {
            StepOut::Step(q, _) => Ok::<ParserV, TableLikeError>(q),
            StepOut::Fail(e) => Err::<ParserV, TableLikeError>(e),
        }),
{
    assert(seq![l][0] == l);
    assert(seq![l].skip(1) =~= Seq::<Seq<char>>::empty());
    match step(p, l) {
        StepOut::Step(q, _) => {
            assert(run(q, Seq::<Seq<char>>::empty()) == Ok::<ParserV, TableLikeError>(q));
        },
        StepOut::Fail(_) => {},
    }
}

/// A token line is a quoted token, and stripping recovers the text.
proof fn lemma_quote_tok(s: Seq<char>)
    ensures
        is_quoted_tok(quote_of(s)),
        strip_tok(quote_of(s)) == s,
{
    let q = quote_of(s);
    assert(q.len() == s.len() + 2);
    assert(q[0] == '"');
    assert(q[q.len() - 1] == '"');
    assert(strip_tok(q) =~= s);
}

/// Draining distributes over splitting the buffer at a pair boundary.
proof fn lemma_drain_concat(a: Seq<Seq<char>>, b: Seq<Seq<char>>, da: Seq<ColV>, db: Seq<ColV>)
    requires
        a.len() % 2 == 0,
        drain_cols(a) == Some(da),
        drain_cols(b) == Some(db),
    ensures
        drain_cols(a + b) == Some(da + db),
    decreases a.len(),
{
    if a.len() == 0 {
        assert(a + b =~= b);
        assert(da =~= Seq::<ColV>::empty());
        assert(da + db =~= db);
    } else {
        assert(a.len() >= 2);
        assert((a + b)[0] == a[0]);
        assert((a + b)[1] == a[1]);
        assert((a + b).skip(2) =~= a.skip(2) + b);
        match drain_cols(a.skip(2)) {
            Some(da2) => {
                assert(a.skip(2).len() % 2 == 0);
                lemma_drain_concat(a.skip(2), b, da2, db);
                if a[1] == str_type_text() {
                    let head = ColV { name: a[0], ty: CellV::Str(None) };
                    assert(da == seq![head] + da2);
                    assert(drain_cols(a + b) == Some(seq![head] + (da2 + db)));
                    assert(seq![head] + (da2 + db) =~= (seq![head] + da2) + db);
                } else {
                    let head = ColV { name: a[0], ty: CellV::Num(None) };
                    assert(a[1] == num_type_text());
                    assert(da == seq![head] + da2);
                    assert(drain_cols(a + b) == Some(seq![head] + (da2 + db)));
                    assert(seq![head] + (da2 + db) =~= (seq![head] + da2) + db);
                }
            },
            None => {
                assert(false);
            },
        }
    }
}

/// The buffered tokens the schema body lines leave behind.
pub open spec fn col_tokens(cols: Seq<ColV>) -> Seq<Seq<char>>
    decreases cols.len(),
{
    if cols.len() == 0 {
        Seq::empty()
    } else {
        col_tokens(cols.drop_last()) + seq![cols.last().name, type_text(cols.last().ty)]
    }
}

/// Draining the buffered schema tokens reproduces the columns.
proof fn lemma_col_tokens(cols: Seq<ColV>)
    requires
        schema_bare(cols),
    ensures
        col_tokens(cols).len() == 2 * cols.len(),
        drain_cols(col_tokens(cols)) == Some(cols),
    decreases cols.len(),
{
    if cols.len() == 0 {
        assert(cols =~= Seq::<ColV>::empty());
    } else {
        let dl = cols.drop_last();
        let c = cols.last();
        assert(schema_bare(dl));
        lemma_col_tokens(dl);
        let pair = seq![c.name, type_text(c.ty)];
        assert(pair.skip(2) =~= Seq::<Seq<char>>::empty());
        assert(pair[0] == c.name);
        assert(pair[1] == type_text(c.ty));
        assert(drain_cols(Seq::<Seq<char>>::empty()) == Some(Seq::<ColV>::empty()));
        assert(str_type_text() != num_type_text());
        match c.ty {
            CellV::Str(_) => {
                assert(c.ty == CellV::Str(None::<Seq<char>>));
                assert(pair[1] == str_type_text());
                assert(drain_cols(pair) == Some(
                    seq![ColV { name: c.name, ty: CellV::Str(None) }] + Seq::<ColV>::empty(),
                ));
                assert(seq![ColV { name: c.name, ty: CellV::Str(None) }] + Seq::<ColV>::empty()
                    =~= seq![c]);
            },
            CellV::Num(_) => {
                assert(c.ty == CellV::Num(None::<i64>));
                assert(pair[1] == num_type_text());
                assert(drain_cols(pair) == Some(
                    seq![ColV { name: c.name, ty: CellV::Num(None) }] + Seq::<ColV>::empty(),
                ));
                assert(seq![ColV { name: c.name, ty: CellV::Num(None) }] + Seq::<ColV>::empty()
                    =~= seq![c]);
            },
        }
        lemma_drain_concat(col_tokens(dl), pair, dl, seq![c]);
        assert(col_tokens(cols) == col_tokens(dl) + pair);
        assert(dl + seq![c] =~= cols);
    }
}

/// Feeding the schema body lines buffers each name and type token.
proof fn lemma_feed_cols(p: ParserV, cols: Seq<ColV>)
    requires
        p.state == ParseState::ExpectingColName,
    ensures
        run(p, cols_lines(cols)) == Ok::<ParserV, TableLikeError>(
            ParserV { buffer: p.buffer + col_tokens(cols), ..p },
        ),
    decreases cols.len(),
{
    if cols.len() == 0 {
        assert(cols_lines(cols) =~= Seq::<Seq<char>>::empty());
        assert(p.buffer + col_tokens(cols) =~= p.buffer);
    } else {
        let dl = cols.drop_last();
        let c = cols.last();
        lemma_feed_cols(p, dl);
        let q = ParserV { buffer: p.buffer + col_tokens(dl), ..p };
        let pair = col_pair_lines(c);
        lemma_run_split(p, cols_lines(dl), pair);
        lemma_quote_tok(c.name);
        lemma_quote_tok(type_text(c.ty));
        let name_line = quote_of(c.name);
        let type_line = quote_of(type_text(c.ty));
        assert(pair =~= seq![name_line] + seq![type_line]);
        let q1 = ParserV {
            state: ParseState::ExpectingColValue,
            buffer: q.buffer.push(c.name),
            ..q
        };
        assert(step(q, name_line) == StepOut::Step(q1, crate::parse::ParseEvent::Progress));
        assert(type_line == quote_of(str_type_text()) || type_line == quote_of(num_type_text()));
        let q2 = ParserV {
            state: ParseState::ExpectingColName,
            buffer: q1.buffer.push(type_text(c.ty)),
            ..q1
        };
        assert(step(q1, type_line) == StepOut::Step(q2, crate::parse::ParseEvent::Progress));
        lemma_run_split(q, seq![name_line], seq![type_line]);
        lemma_run_one(q, name_line);
        lemma_run_one(q1, type_line);
        assert(run(q, pair) == Ok::<ParserV, TableLikeError>(q2));
        assert(cols_lines(cols) == cols_lines(dl) + pair);
        assert(q2.buffer =~= p.buffer + col_tokens(cols));
        assert(q2 == ParserV { buffer: p.buffer + col_tokens(cols), ..p });
    }
}

/// Feeding a whole schema block appends the columns and clears the
/// buffer, ending ready for row blocks.
proof fn lemma_feed_schema(p: ParserV, cols: Seq<ColV>)
    requires
        p.state == ParseState::ExpectingColStart,
        p.buffer.len() == 0,
        schema_bare(cols),
    ensures
        run(p, schema_lines(cols)) == Ok::<ParserV, TableLikeError>(
            ParserV {
                state: ParseState::ExpectingRowStart,
                cols: p.cols + cols,
                buffer: Seq::empty(),
                ..p
            },
        ),
{
    let p1 = ParserV { state: ParseState::ExpectingColName, ..p };
    assert(step(p, col_start_text()) == StepOut::Step(p1, crate::parse::ParseEvent::Progress));
    lemma_run_one(p, col_start_text());
    assert(run(p, seq![col_start_text()]) == Ok::<ParserV, TableLikeError>(p1));
    lemma_feed_cols(p1, cols);
    let q = ParserV { buffer: p1.buffer + col_tokens(cols), ..p1 };
    assert(q.buffer =~= col_tokens(cols));
    lemma_col_tokens(cols);
    assert(drain_cols(q.buffer) == Some(cols));
    assert(!is_quoted_tok(col_end_text()));
    let q2 = ParserV {
        state: ParseState::ExpectingRowStart,
        cols: q.cols + cols,
        buffer: Seq::empty(),
        ..q
    };
    assert(step(q, col_end_text()) == StepOut::Step(q2, crate::parse::ParseEvent::SchemaComplete));
    lemma_run_one(q, col_end_text());
    assert(run(q, seq![col_end_text()]) == Ok::<ParserV, TableLikeError>(q2));
    lemma_run_split(p, seq![col_start_text()], cols_lines(cols) + seq![col_end_text()]);
    lemma_run_split(p1, cols_lines(cols), seq![col_end_text()]);
    assert(schema_lines(cols) =~= seq![col_start_text()] + (cols_lines(cols) + seq![
        col_end_text(),
    ]));
}

/// Decoding the serialized texts of a conforming, fully present row
/// reproduces its cells.
proof fn lemma_decode_texts(cols: Seq<ColV>, r: Seq<CellV>, n: int)
    requires
        row_matches(cols, r),
        row_present(r),
        0 <= n <= r.len(),
    ensures
        decode_row_to(cols, cell_texts(r), n) == Some(r.take(n)),
    decreases n,
{
    if n == 0 {
        assert(r.take(0) =~= Seq::<CellV>::empty());
    } else {
        lemma_decode_texts(cols, r, n - 1);
        assert(cell_texts(r)[n - 1] == cell_text(r[n - 1]));
        assert(is_present(r[n - 1]));
        match r[n - 1] {
            CellV::Num(v) => {
                lemma_parse_dec(v->Some_0);
                assert(decode_cell(cols[n - 1].ty, cell_text(r[n - 1])) == Some(r[n - 1]));
            },
            CellV::Str(s) => {
                assert(decode_cell(cols[n - 1].ty, cell_text(r[n - 1])) == Some(r[n - 1]));
            },
        }
        assert(r.take(n) =~= r.take(n - 1).push(r[n - 1]));
    }
}

/// Feeding the cell token lines buffers each cell text.
proof fn lemma_feed_cells(p: ParserV, r: Seq<CellV>)
    requires
        p.state == ParseState::ExpectingCellValue,
    ensures
        run(p, cell_lines(r)) == Ok::<ParserV, TableLikeError>(
            ParserV { buffer: p.buffer + cell_texts(r), ..p },
        ),
    decreases r.len(),
{
    if r.len() == 0 {
        assert(cell_lines(r) =~= Seq::<Seq<char>>::empty());
        assert(p.buffer + cell_texts(r) =~= p.buffer);
    } else {
        let dl = r.drop_last();
        let c = r.last();
        lemma_feed_cells(p, dl);
        let q = ParserV { buffer: p.buffer + cell_texts(dl), ..p };
        let line = quote_of(cell_text(c));
        lemma_quote_tok(cell_text(c));
        let q2 = ParserV {
            state: ParseState::ExpectingCellValue,
            buffer: q.buffer.push(cell_text(c)),
            ..q
        };
        assert(step(q, line) == StepOut::Step(q2, crate::parse::ParseEvent::Progress));
        lemma_run_split(p, cell_lines(dl), seq![line]);
        lemma_run_one(q, line);
        assert(cell_lines(r) == cell_lines(dl).push(line));
        assert(cell_lines(dl).push(line) =~= cell_lines(dl) + seq![line]);
        assert(q2.buffer =~= p.buffer + cell_texts(r));
        assert(q2 == ParserV { state: ParseState::ExpectingCellValue, buffer: p.buffer + cell_texts(r), ..p });
    }
}

/// Feeding one row block appends exactly that row.
proof fn lemma_feed_row(p: ParserV, r: Seq<CellV>)
    requires
        p.state == ParseState::ExpectingRowStart,
        row_matches(p.cols, r),
        row_present(r),
    ensures
        run(p, row_lines(r)) == Ok::<ParserV, TableLikeError>(
            ParserV {
                state: ParseState::ExpectingRowStart,
                rows: p.rows.push(r),
                buffer: Seq::empty(),
                ..p
            },
        ),
{
    let p1 = ParserV { state: ParseState::ExpectingCellValue, buffer: Seq::empty(), ..p };
    assert(step(p, rstart_text()) == StepOut::Step(p1, crate::parse::ParseEvent::Progress));
    lemma_run_one(p, rstart_text());
    assert(run(p, seq![rstart_text()]) == Ok::<ParserV, TableLikeError>(p1));
    lemma_feed_cells(p1, r);
    let q = ParserV { buffer: p1.buffer + cell_texts(r), ..p1 };
    assert(q.buffer =~= cell_texts(r));
    assert(!is_quoted_tok(rend_text()));
    assert(q.buffer.len() == q.cols.len());
    lemma_decode_texts(p.cols, r, r.len() as int);
    assert(r.take(r.len() as int) =~= r);
    assert(decode_row(q.cols, q.buffer) == Some(r));
    let q2 = ParserV {
        state: ParseState::ExpectingRowStart,
        rows: q.rows.push(r),
        buffer: Seq::empty(),
        ..q
    };
    assert(step(q, rend_text()) == StepOut::Step(q2, crate::parse::ParseEvent::RowComplete));
    lemma_run_one(q, rend_text());
    assert(run(q, seq![rend_text()]) == Ok::<ParserV, TableLikeError>(q2));
    lemma_run_split(p, seq![rstart_text()], cell_lines(r) + seq![rend_text()]);
    lemma_run_split(p1, cell_lines(r), seq![rend_text()]);
    assert(row_lines(r) =~= seq![rstart_text()] + (cell_lines(r) + seq![rend_text()]));
}

/// Feeding every row block appends the rows, in order.
proof fn lemma_feed_rows(p: ParserV, rows: Seq<Seq<CellV>>)
    requires
        p.state == ParseState::ExpectingRowStart,
        p.buffer.len() == 0,
        rows_conform(p.cols, rows),
        forall|i: int| 0 <= i < rows.len() ==> row_present(#[trigger] rows[i]),
    ensures
        run(p, rows_lines(rows)) == Ok::<ParserV, TableLikeError>(
            ParserV { rows: p.rows + rows, buffer: Seq::empty(), ..p },
        ),
    decreases rows.len(),
{
    if rows.len() == 0 {
        assert(rows_lines(rows) =~= Seq::<Seq<char>>::empty());
        assert(p.rows + rows =~= p.rows);
        assert(p.buffer =~= Seq::<Seq<char>>::empty());
        assert(ParserV { rows: p.rows + rows, buffer: Seq::empty(), ..p } == p);
    } else {
        let dl = rows.drop_last();
        let r = rows.last();
        assert(rows_conform(p.cols, dl));
        lemma_feed_rows(p, dl);
        let q = ParserV { rows: p.rows + dl, buffer: Seq::empty(), ..p };
        lemma_feed_row(q, r);
        lemma_run_split(p, rows_lines(dl), row_lines(r));
        assert((p.rows + dl).push(r) =~= p.rows + rows);
    }
}

/// Round trip: serializing a table and parsing the lines back yields
/// exactly the original schema and the original rows, in order, for
/// any table whose texts hold no quote or newline characters and
/// whose cells all carry a payload (a NULL cell re-reads as the text
/// `NULL`, so it cannot round-trip).
pub proof fn lemma_round_trip(t: TableV)
    requires
        schema_bare(t.cols),
        rows_conform(t.cols, t.rows),
        forall|i: int| 0 <= i < t.rows.len() ==> row_present(#[trigger] t.rows[i]),
        table_text_clean(t),
    ensures
        ({
            let p0 = ParserV {
                state: ParseState::ExpectingColStart,
                cols: Seq::empty(),
                rows: Seq::empty(),
                buffer: Seq::empty(),
            };
            run(p0, table_lines(t)) == Ok::<ParserV, TableLikeError>(
                ParserV {
                    state: ParseState::ExpectingRowStart,
                    cols: t.cols,
                    rows: t.rows,
                    buffer: Seq::empty(),
                },
            )
        }),
{
    let p0 = ParserV {
        state: ParseState::ExpectingColStart,
        cols: Seq::empty(),
        rows: Seq::empty(),
        buffer: Seq::empty(),
    };
    lemma_feed_schema(p0, t.cols);
    let q = ParserV {
        state: ParseState::ExpectingRowStart,
        cols: p0.cols + t.cols,
        buffer: Seq::empty(),
        ..p0
    };
    assert(q.cols =~= t.cols);
    assert(q == ParserV {
        state: ParseState::ExpectingRowStart,
        cols: t.cols,
        rows: Seq::empty(),
        buffer: Seq::empty(),
    });
    lemma_feed_rows(q, t.rows);
    lemma_run_split(p0, schema_lines(t.cols), rows_lines(t.rows));
    assert(q.rows + t.rows =~= t.rows);
}

/// No quote and no newline anywhere in a text.
pub open spec fn text_clean(s: Seq<char>) -> bool {
    forall|j: int| 0 <= j < s.len() ==> s[j] != '"' && s[j] != '\n'
}

/// No newline anywhere in a line.
pub open spec fn line_clean(l: Seq<char>) -> bool {
    forall|j: int| 0 <= j < l.len() ==> l[j] != '\n'
}

/// The persisted text of a line sequence: each line, a newline after
/// every one of them.
pub open spec fn join_lines(lines: Seq<Seq<char>>) -> Seq<char>
    decreases lines.len(),
{
    if lines.len() == 0 {
        Seq::empty()
    } else {
        lines[0] + seq!['\n'] + join_lines(lines.skip(1))
    }
}

/// The position of the first newline, if any.
pub open spec fn first_nl(t: Seq<char>) -> Option<int>
    decreases t.len(),
{
    if t.len() == 0 {
        None
    } else if t[0] == '\n' {
        Some(0)
    } else {
        match first_nl(t.skip(1)) {
            Some(i) => Some(i + 1),
            None => None,
        }
    }
}

proof fn lemma_first_nl_bounds(t: Seq<char>)
    ensures
        first_nl(t) matches Some(i) ==> 0 <= i < t.len(),
    decreases t.len(),
{
    if t.len() > 0 && t[0] != '\n' {
        lemma_first_nl_bounds(t.skip(1));
    }
}

/// Reading a text back into lines, splitting at each newline; a
/// trailing piece without a newline is a line of its own.
pub open spec fn split_lines(t: Seq<char>) -> Seq<Seq<char>>
    decreases t.len(),
    via split_lines_dec
{
    if t.len() == 0 {
        Seq::empty()
    } else {
        match first_nl(t) {
            None => seq![t],
            Some(i) => seq![t.take(i)] + split_lines(t.skip(i + 1)),
        }
    }
}

#[via_fn]
proof fn split_lines_dec(t: Seq<char>) {
    lemma_first_nl_bounds(t);
}

proof fn lemma_first_nl_at(t: Seq<char>, i: int)
    requires
        0 <= i < t.len(),
        t[i] == '\n',
        forall|j: int| 0 <= j < i ==> t[j] != '\n',
    ensures
        first_nl(t) == Some(i),
    decreases i,
{
    if i == 0 {
    } else {
        assert(t[0] != '\n');
        let s = t.skip(1);
        assert(s[i - 1] == '\n');
        assert(forall|j: int| 0 <= j < i - 1 ==> #[trigger] s[j] == t[j + 1]);
        lemma_first_nl_at(s, i - 1);
    }
}

/// Writing lines into one text and splitting it back is the
/// identity, as long as no line holds an embedded newline.
pub proof fn lemma_split_join(lines: Seq<Seq<char>>)
    requires
        forall|i: int| 0 <= i < lines.len() ==> line_clean(#[trigger] lines[i]),
    ensures
        split_lines(join_lines(lines)) == lines,
    decreases lines.len(),
{
    if lines.len() == 0 {
        assert(split_lines(join_lines(lines)) =~= lines);
    } else {
        let l0 = lines[0];
        let rest = lines.skip(1);
        let t = join_lines(lines);
        assert(line_clean(l0));
        assert(t.len() == l0.len() + 1 + join_lines(rest).len());
        assert(t[l0.len() as int] == '\n');
        assert(forall|j: int| 0 <= j < l0.len() ==> #[trigger] t[j] == l0[j]);
        lemma_first_nl_at(t, l0.len() as int);
        assert(t.take(l0.len() as int) =~= l0);
        assert(t.skip((l0.len() + 1) as int) =~= join_lines(rest));
        assert(forall|i: int| 0 <= i < rest.len() ==> line_clean(#[trigger] rest[i]));
        lemma_split_join(rest);
        assert(seq![l0] + split_lines(join_lines(rest)) =~= lines);
    }
}

proof fn lemma_quote_line_clean(s: Seq<char>)
    requires
        forall|j: int| 0 <= j < s.len() ==> s[j] != '\n',
    ensures
        line_clean(quote_of(s)),
{
    assert forall|j: int| 0 <= j < quote_of(s).len() implies #[trigger] quote_of(s)[j]
        != '\n' by {
        if 1 <= j < s.len() + 1 {
            assert(quote_of(s)[j] == s[j - 1]);
        }
    }
}

proof fn lemma_cols_lines_clean(cols: Seq<ColV>)
    requires
        forall|i: int| 0 <= i < cols.len() ==> text_clean(#[trigger] cols[i].name),
    ensures
        forall|i: int| 0 <= i < cols_lines(cols).len() ==> line_clean(#[trigger] cols_lines(cols)[i]),
    decreases cols.len(),
{
    if cols.len() > 0 {
        let dl = cols.drop_last();
        let c = cols.last();
        lemma_cols_lines_clean(dl);
        lemma_quote_line_clean(c.name);
        lemma_quote_line_clean(type_text(c.ty));
        let pair = col_pair_lines(c);
        assert forall|i: int| 0 <= i < cols_lines(cols).len() implies line_clean(
            #[trigger] cols_lines(cols)[i],
        ) by {
            if i < cols_lines(dl).len() {
                assert(cols_lines(cols)[i] == cols_lines(dl)[i]);
            } else {
                assert(cols_lines(cols)[i] == pair[i - cols_lines(dl).len()]);
            }
        }
    }
}

proof fn lemma_row_lines_clean(r: Seq<CellV>)
    requires
        forall|j: int| 0 <= j < r.len() ==> text_clean(cell_text(#[trigger] r[j])),
    ensures
        forall|i: int| 0 <= i < row_lines(r).len() ==> line_clean(#[trigger] row_lines(r)[i]),
{
    assert forall|i: int| 0 <= i < cell_lines(r).len() implies line_clean(
        #[trigger] cell_lines(r)[i],
    ) by {
        lemma_cell_lines_clean_at(r, i);
    }
    assert forall|i: int| 0 <= i < row_lines(r).len() implies line_clean(
        #[trigger] row_lines(r)[i],
    ) by {
        if i == 0 {
            assert(row_lines(r)[i] == rstart_text());
        } else if i < cell_lines(r).len() + 1 {
            assert(row_lines(r)[i] == cell_lines(r)[i - 1]);
        } else {
            assert(row_lines(r)[i] == rend_text());
        }
    }
}

proof fn lemma_cell_lines_clean_at(r: Seq<CellV>, i: int)
    requires
        forall|j: int| 0 <= j < r.len() ==> text_clean(cell_text(#[trigger] r[j])),
        0 <= i < cell_lines(r).len(),
    ensures
        line_clean(cell_lines(r)[i]),
    decreases r.len(),
{
    lemma_cell_lines_len(r);
    if i == r.len() - 1 {
        lemma_quote_line_clean(cell_text(r.last()));
        assert(cell_lines(r)[i] == quote_of(cell_text(r.last())));
    } else {
        let dl = r.drop_last();
        lemma_cell_lines_len(dl);
        assert(cell_lines(r)[i] == cell_lines(dl)[i]);
        lemma_cell_lines_clean_at(dl, i);
    }
}

proof fn lemma_cell_lines_len(r: Seq<CellV>)
    ensures
        cell_lines(r).len() == r.len(),
    decreases r.len(),
{
    if r.len() > 0 {
        lemma_cell_lines_len(r.drop_last());
    }
}

/// Every line of a clean table's persisted form is itself clean, so
/// writing them newline-terminated and reading the text back gives
/// exactly the serialized lines again.
pub proof fn lemma_table_lines_clean(t: TableV)
    requires
        table_text_clean(t),
    ensures
        forall|i: int|
            0 <= i < table_lines(t).len() ==> line_clean(#[trigger] table_lines(t)[i]),
        split_lines(join_lines(table_lines(t))) == table_lines(t),
{
    lemma_cols_lines_clean(t.cols);
    assert forall|i: int| 0 <= i < rows_lines(t.rows).len() implies line_clean(
        #[trigger] rows_lines(t.rows)[i],
    ) by {
        lemma_rows_lines_clean_at(t.rows, i);
    }
    let sl = schema_lines(t.cols);
    assert forall|i: int| 0 <= i < sl.len() implies line_clean(#[trigger] sl[i]) by {
        if i == 0 {
            assert(sl[i] == col_start_text());
        } else if i < cols_lines(t.cols).len() + 1 {
            assert(sl[i] == cols_lines(t.cols)[i - 1]);
        } else {
            assert(sl[i] == col_end_text());
        }
    }
    assert forall|i: int| 0 <= i < table_lines(t).len() implies line_clean(
        #[trigger] table_lines(t)[i],
    ) by {
        if i < sl.len() {
            assert(table_lines(t)[i] == sl[i]);
        } else {
            assert(table_lines(t)[i] == rows_lines(t.rows)[i - sl.len()]);
        }
    }
    lemma_split_join(table_lines(t));
}

proof fn lemma_rows_lines_clean_at(rows: Seq<Seq<CellV>>, i: int)
    requires
        forall|a: int, b: int|
            0 <= a < rows.len() && 0 <= b < rows[a].len() ==> text_clean(
                cell_text(#[trigger] rows[a][b]),
            ),
        0 <= i < rows_lines(rows).len(),
    ensures
        line_clean(rows_lines(rows)[i]),
    decreases rows.len(),
{
    if rows.len() > 0 {
        let dl = rows.drop_last();
        let r = rows.last();
        if i < rows_lines(dl).len() {
            assert(rows_lines(rows)[i] == rows_lines(dl)[i]);
            assert(forall|a: int, b: int|
                0 <= a < dl.len() && 0 <= b < dl[a].len() ==> text_clean(
                    cell_text(#[trigger] dl[a][b]),
                ));
            lemma_rows_lines_clean_at(dl, i);
        } else {
            assert(forall|b: int| 0 <= b < r.len() ==> text_clean(cell_text(#[trigger] r[b])));
            lemma_row_lines_clean(r);
            assert(rows_lines(rows)[i] == row_lines(r)[i - rows_lines(dl).len()]);
        }
    }
}

/// Every column name and every cell text of the table is clean.
pub open spec fn table_text_clean(t: TableV) -> bool {
    &&& forall|i: int| 0 <= i < t.cols.len() ==> text_clean(#[trigger] t.cols[i].name)
    &&& forall|i: int, j: int|
        0 <= i < t.rows.len() && 0 <= j < t.rows[i].len() ==> text_clean(
            cell_text(#[trigger] t.rows[i][j]),
        )
}

} // verus!
