//! Rendering a table as bordered, column-aligned display text, with
//! `|` for column terminators, `+` for corners and `-` for rules.
//! Purely presentational; the widths slots widen to fit the data and
//! can be carried across block-wise prints of one large table.

use crate::cell::cell_text;
use crate::cell::CellV;
use crate::table::ColV;
use crate::table::Table;
use crate::table::TableV;
use vstd::math::min;
use vstd::prelude::*;

verus! {

/// Which part of a table this print call renders: a whole table, or
/// the opening, middle or closing block of one printed in pieces.
#[derive(Clone, Copy, Debug, PartialEq, Eq, Structural)]
pub enum PrintOption {
    FullTable,
    StartTable,
    MidTable,
    EndTable,
}

/// The header and its borders are printed at the opening block.
pub open spec fn shows_head(o: PrintOption) -> bool {
    o == PrintOption::FullTable || o == PrintOption::StartTable
}

/// The closing border is printed at the closing block.
pub open spec fn shows_tail(o: PrintOption) -> bool {
    o == PrintOption::FullTable || o == PrintOption::EndTable
}

pub open spec fn repeat_char(c: char, n: nat) -> Seq<char>
    decreases n,
{
    if n == 0 {
        Seq::empty()
    } else {
        repeat_char(c, (n - 1) as nat).push(c)
    }
}

/// Left-aligned text, space-filled up to the field width.
pub open spec fn pad_text(s: Seq<char>, w: nat) -> Seq<char> {
    if s.len() >= w {
        s
    } else {
        s + repeat_char(' ', (w - s.len()) as nat)
    }
}

/// A rule is at least one dash wide, even for an empty column.
pub open spec fn dash_width(sz: usize) -> nat {
    if sz == 0 {
        1nat
    } else {
        sz as nat
    }
}

pub open spec fn border_seg(sz: usize) -> Seq<char> {
    seq!['+', '-'] + repeat_char('-', dash_width(sz)) + seq!['-']
}

/// The first `n` border segments, in order.
pub open spec fn border_to(ws: Seq<usize>, n: int) -> Seq<char>
    decreases n,
{
    if n <= 0 {
        Seq::empty()
    } else {
        border_to(ws, n - 1) + border_seg(ws[n - 1])
    }
}

pub open spec fn border_line(ws: Seq<usize>) -> Seq<char> {
    border_to(ws, ws.len() as int) + seq!['+', '\n']
}

/// One field: a separator, a space, the padded text, a space.
pub open spec fn field_seg(txt: Seq<char>, sz: usize) -> Seq<char> {
    seq!['|', ' '] + pad_text(txt, sz as nat) + seq![' ']
}

/// The first `n` header fields, in order.
pub open spec fn header_to(cols: Seq<ColV>, ws: Seq<usize>, n: int) -> Seq<char>
    decreases n,
{
    if n <= 0 {
        Seq::empty()
    } else {
        header_to(cols, ws, n - 1) + field_seg(cols[n - 1].name, ws[n - 1])
    }
}

pub open spec fn header_line(cols: Seq<ColV>, ws: Seq<usize>) -> Seq<char> {
    header_to(cols, ws, min(cols.len() as int, ws.len() as int)) + seq!['|', '\n']
}

/// The first `n` cell fields of one row, in order.
pub open spec fn row_to(r: Seq<CellV>, ws: Seq<usize>, n: int) -> Seq<char>
    decreases n,
{
    if n <= 0 {
        Seq::empty()
    } else {
        row_to(r, ws, n - 1) + field_seg(cell_text(r[n - 1]), ws[n - 1])
    }
}

pub open spec fn row_text(r: Seq<CellV>, ws: Seq<usize>) -> Seq<char> {
    row_to(r, ws, min(r.len() as int, ws.len() as int)) + seq!['|']
}

/// All row lines, separated by newlines, no trailing newline.
pub open spec fn rows_text(rows: Seq<Seq<CellV>>, ws: Seq<usize>) -> Seq<char>
    decreases rows.len(),
{
    if rows.len() == 0 {
        Seq::empty()
    } else if rows.len() == 1 {
        row_text(rows[0], ws)
    } else {
        rows_text(rows.drop_last(), ws) + seq!['\n'] + row_text(rows.last(), ws)
    }
}

/// The width slots after the first `n` cells of a row widened them.
pub open spec fn bump_row_to(ws: Seq<usize>, r: Seq<CellV>, n: int) -> Seq<usize> {
    Seq::new(
        ws.len(),
        |j: int|
            if j < n && j < r.len() && cell_text(r[j]).len() > ws[j] {
                cell_text(r[j]).len() as usize
            } else {
                ws[j]
            },
    )
}

pub open spec fn bump_row(ws: Seq<usize>, r: Seq<CellV>) -> Seq<usize> {
    bump_row_to(ws, r, ws.len() as int)
}

/// The width slots after every row widened them, in row order.
pub open spec fn bump_rows(ws: Seq<usize>, rows: Seq<Seq<CellV>>) -> Seq<usize>
    decreases rows.len(),
{
    if rows.len() == 0 {
        ws
    } else {
        bump_row(bump_rows(ws, rows.drop_last()), rows.last())
    }
}

/// The width slots after the first `n` column names widened them.
pub open spec fn bump_cols_to(ws: Seq<usize>, cols: Seq<ColV>, n: int) -> Seq<usize> {
    Seq::new(
        ws.len(),
        |j: int|
            if j < n && j < cols.len() && cols[j].name.len() > ws[j] {
                cols[j].name.len() as usize
            } else {
                ws[j]
            },
    )
}

pub open spec fn bump_cols(ws: Seq<usize>, cols: Seq<ColV>) -> Seq<usize> {
    bump_cols_to(ws, cols, ws.len() as int)
}

/// The whole rendered text of one print call, given the final widths.
pub open spec fn table_text(t: TableV, ws: Seq<usize>, o: PrintOption) -> Seq<char> {
    (if shows_head(o) {
        border_line(ws) + header_line(t.cols, ws) + border_line(ws)
    } else {
        Seq::empty()
    }) + rows_text(t.rows, ws) + (if shows_tail(o) {
        seq!['\n'] + border_to(ws, ws.len() as int) + seq!['+']
    } else {
        Seq::empty()
    })
}

fn append_repeat(s: &mut String, piece: &str, c: Ghost<char>, n: usize)
    requires
        piece@ == seq![c@],
    ensures
        final(s)@ == old(s)@ + repeat_char(c@, n as nat),
{
    let mut i: usize = 0;
    proof {
        assert(s@ =~= old(s)@ + repeat_char(c@, 0));
    }
    while i < n
        invariant
            i <= n,
            piece@ == seq![c@],
            s@ == old(s)@ + repeat_char(c@, i as nat),
        decreases n - i,
    {
        s.append(piece);
        proof {
            assert(repeat_char(c@, (i + 1) as nat).drop_last() =~= repeat_char(c@, i as nat));
            assert(s@ =~= old(s)@ + repeat_char(c@, (i + 1) as nat));
        }
        i = i + 1;
    }
}

/// Appends one field: separator, space, padded text, space.
fn append_field(s: &mut String, txt: &str, sz: usize)
    ensures
        final(s)@ == old(s)@ + field_seg(txt@, sz),
{
    s.append("| ");
    s.append(txt);
    let l = txt.unicode_len();
    if l < sz {
        proof {
            reveal_strlit(" ");
            assert(" "@ =~= seq![' ']);
        }
        append_repeat(s, " ", Ghost(' '), sz - l);
    }
    s.append(" ");
    proof {
        reveal_strlit("| ");
        reveal_strlit(" ");
        assert("| "@ =~= seq!['|', ' ']);
        assert(" "@ =~= seq![' ']);
        assert(s@ =~= old(s)@ + field_seg(txt@, sz));
    }
}

/// Appends the border segments for every width slot.
fn append_border(s: &mut String, ws: &Vec<usize>)
    ensures
        final(s)@ == old(s)@ + border_to(ws@, ws.len() as int),
{
    let n = ws.len();
    let mut j: usize = 0;
    while j < n
        invariant
            j <= n,
            n == ws.len(),
            s@ == old(s)@ + border_to(ws@, j as int),
        decreases n - j,
    {
        s.append("+-");
        let sz = ws[j];
        let d = if sz == 0 {
            1
        } else {
            sz
        };
        proof {
            reveal_strlit("-");
            assert("-"@ =~= seq!['-']);
        }
        append_repeat(s, "-", Ghost('-'), d);
        s.append("-");
        proof {
            reveal_strlit("+-");
            reveal_strlit("-");
            assert("+-"@ =~= seq!['+', '-']);
            assert("-"@ =~= seq!['-']);
            assert(s@ =~= old(s)@ + border_to(ws@, j + 1));
        }
        j = j + 1;
    }
}

impl Table {
    /// Renders one print block of this table.  Each width slot first
    /// widens to the longest cell text in its column, and, when the
    /// header is printed, to the column name; the text then aligns
    /// every field to those widths.
    pub fn print_table(&self, widths: &mut Vec<usize>, table_option: PrintOption) -> (r: String)
        ensures
            ({
                let w1 = bump_rows(old(widths)@, self@.rows);
                let w2 = if shows_head(table_option) {
                    bump_cols(w1, self@.cols)
                } else {
                    w1
                };
                final(widths)@ == w2 && r@ == table_text(self@, w2, table_option)
            }),
    {
        let ghost w0 = widths@;
        let n = self.all.len();
        let mut i: usize = 0;
        proof {
            assert(widths@ =~= bump_rows(w0, self@.rows.take(0)));
        }
        while i < n
            invariant
                i <= n,
                n == self.all.len(),
                widths@ == bump_rows(w0, self@.rows.take(i as int)),
                widths.len() == w0.len(),
            decreases n - i,
        {
            let row = &self.all[i];
            let wlen = widths.len();
            let lim = if row.col_data.len() < wlen {
                row.col_data.len()
            } else {
                wlen
            };
            let ghost we = widths@;
            let mut j: usize = 0;
            proof {
                assert(widths@ =~= bump_row_to(we, row@, 0));
            }
            while j < lim
                invariant
                    j <= lim,
                    lim <= row.col_data.len(),
                    lim <= widths.len(),
                    wlen == widths.len(),
                    widths.len() == we.len(),
                    widths@ == bump_row_to(we, row@, j as int),
                decreases lim - j,
            {
                let l = row.col_data[j].get_len();
                if l > widths[j] {
                    widths[j] = l;
                }
                proof {
                    assert(widths@ =~= bump_row_to(we, row@, j + 1));
                }
                j = j + 1;
            }
            proof {
                assert(lim as int == min(row@.len() as int, we.len() as int));
                assert(bump_row_to(we, row@, lim as int) =~= bump_row(we, row@));
                assert(self@.rows.take(i + 1).drop_last() =~= self@.rows.take(i as int));
                assert(self@.rows.take(i + 1).last() == row@);
            }
            i = i + 1;
        }
        proof {
            assert(self@.rows.take(n as int) =~= self@.rows);
        }
        let ghost w1 = bump_rows(w0, self@.rows);
        let heads = match table_option {
            PrintOption::FullTable => true,
            PrintOption::StartTable => true,
            _ => false,
        };
        if heads {
            let clen = self.col_names.len();
            let wlen = widths.len();
            let lim = if clen < wlen {
                clen
            } else {
                wlen
            };
            let mut j: usize = 0;
            proof {
                assert(widths@ =~= bump_cols_to(w1, self@.cols, 0));
            }
            while j < lim
                invariant
                    j <= lim,
                    lim <= self.col_names.len(),
                    lim <= widths.len(),
                    widths.len() == w1.len(),
                    widths@ == bump_cols_to(w1, self@.cols, j as int),
                decreases lim - j,
            {
                let l = self.col_names[j].col_name.as_str().unicode_len();
                if l > widths[j] {
                    widths[j] = l;
                }
                proof {
                    assert(widths@ =~= bump_cols_to(w1, self@.cols, j + 1));
                }
                j = j + 1;
            }
            proof {
                assert(bump_cols_to(w1, self@.cols, lim as int) =~= bump_cols(w1, self@.cols));
            }
        }
        let ghost w2 = widths@;
        let mut s = String::new();
        if heads {
            append_border(&mut s, widths);
            s.append("+\n");
            let clen = self.col_names.len();
            let wlen = widths.len();
            let lim = if clen < wlen {
                clen
            } else {
                wlen
            };
            let ghost base = s@;
            let mut j: usize = 0;
            while j < lim
                invariant
                    j <= lim,
                    lim <= self.col_names.len(),
                    lim <= widths.len(),
                    s@ == base + header_to(self@.cols, widths@, j as int),
                    widths@ == w2,
                decreases lim - j,
            {
                append_field(&mut s, self.col_names[j].col_name.as_str(), widths[j]);
                proof {
                    assert(s@ =~= base + header_to(self@.cols, widths@, j + 1));
                }
                j = j + 1;
            }
            s.append("|\n");
            append_border(&mut s, widths);
            s.append("+\n");
            proof {
                reveal_strlit("+\n");
                reveal_strlit("|\n");
                assert("+\n"@ =~= seq!['+', '\n']);
                assert("|\n"@ =~= seq!['|', '\n']);
                assert(lim as int == min(self@.cols.len() as int, widths@.len() as int));
                assert(s@ =~= border_line(w2) + header_line(self@.cols, w2) + border_line(w2));
            }
        }
        let ghost head_part = s@;
        proof {
            assert(head_part == if shows_head(table_option) {
                border_line(w2) + header_line(self@.cols, w2) + border_line(w2)
            } else {
                Seq::<char>::empty()
            });
            assert(s@ =~= head_part + rows_text(self@.rows.take(0), w2));
        }
        let mut first = true;
        let mut i: usize = 0;
        while i < n
            invariant
                i <= n,
                n == self.all.len(),
                first == (i == 0),
                widths@ == w2,
                s@ == head_part + rows_text(self@.rows.take(i as int), w2),
            decreases n - i,
        {
            if !first {
                s.append("\n");
                proof {
                    reveal_strlit("\n");
                    assert("\n"@ =~= seq!['\n']);
                }
            } else {
                first = false;
            }
            let row = &self.all[i];
            let wlen = widths.len();
            let lim = if row.col_data.len() < wlen {
                row.col_data.len()
            } else {
                wlen
            };
            let ghost rbase = s@;
            let mut j: usize = 0;
            while j < lim
                invariant
                    j <= lim,
                    lim <= row.col_data.len(),
                    lim <= widths.len(),
                    s@ == rbase + row_to(row@, widths@, j as int),
                    widths@ == w2,
                decreases lim - j,
            {
                let txt = row.col_data[j].to_text();
                append_field(&mut s, txt.as_str(), widths[j]);
                proof {
                    assert(s@ =~= rbase + row_to(row@, widths@, j + 1));
                }
                j = j + 1;
            }
            s.append("|");
            proof {
                reveal_strlit("|");
                assert("|"@ =~= seq!['|']);
                assert(lim as int == min(row@.len() as int, w2.len() as int));
                assert(s@ =~= rbase + row_text(row@, w2));
                assert(self@.rows.take(i + 1).drop_last() =~= self@.rows.take(i as int));
                assert(self@.rows.take(i + 1).last() == row@);
                if i == 0 {
                    assert(rbase == head_part);
                    assert(s@ =~= head_part + rows_text(self@.rows.take(i + 1), w2));
                } else {
                    assert(s@ =~= head_part + rows_text(self@.rows.take(i + 1), w2));
                }
            }
            i = i + 1;
        }
        proof {
            assert(self@.rows.take(n as int) =~= self@.rows);
        }
        let tails = match table_option {
            PrintOption::FullTable => true,
            PrintOption::EndTable => true,
            _ => false,
        };
        if tails {
            s.append("\n");
            append_border(&mut s, widths);
            s.append("+");
            proof {
                reveal_strlit("\n");
                reveal_strlit("+");
                assert("\n"@ =~= seq!['\n']);
                assert("+"@ =~= seq!['+']);
            }
        }
        proof {
            assert(s@ =~= table_text(self@, w2, table_option));
        }
        s
    }
}

} // verus!
