//! The serialization state machine: five states, driven one line at a
//! time, accumulating a schema and rows.  The parser does no I/O.

use crate::cell::CellV;
use crate::cell::TableCell;
use crate::error::TableLikeError;
use crate::num::parse_num;
use crate::num::parse_num_str;
use crate::table::num_type_text;
use crate::table::str_type_text;
use crate::table::ColV;
use crate::table::ColumnEntry;
use crate::table::Table;
use crate::table::TableEntry;
use vstd::prelude::*;

verus! {

/// The line that opens a schema block.
pub open spec fn col_start_text() -> Seq<char> {
    seq!['C', 'o', 'l', 'D', 'e', 's', 'c', 'S', 't', 'a', 'r', 't']
}

/// The line that closes a schema block.
pub open spec fn col_end_text() -> Seq<char> {
    seq!['C', 'o', 'l', 'D', 'e', 's', 'c', 'E', 'n', 'd']
}

/// The line that opens a row block.
pub open spec fn rstart_text() -> Seq<char> {
    seq!['R', 'S', 't', 'a', 'r', 't']
}

/// The line that closes a row block.
pub open spec fn rend_text() -> Seq<char> {
    seq!['R', 'E', 'n', 'd']
}

/// A token line: the text wrapped in two literal double quotes.
pub open spec fn quote_of(s: Seq<char>) -> Seq<char> {
    seq!['"'] + s + seq!['"']
}

/// A quoted token: a line of at least two characters that begins and
/// ends with a literal double quote.
pub open spec fn is_quoted_tok(l: Seq<char>) -> bool {
    l.len() >= 2 && l[0] == '"' && l[l.len() - 1] == '"'
}

/// The value of a quoted token: the line with the two quotes stripped.
pub open spec fn strip_tok(l: Seq<char>) -> Seq<char> {
    l.subrange(1, l.len() - 1)
}

/// The five parser states.
#[derive(Clone, Copy, Debug, PartialEq, Eq, Structural)]
pub enum ParseState {
    ExpectingColStart,
    ExpectingColName,
    ExpectingColValue,
    ExpectingRowStart,
    ExpectingCellValue,
}

impl Default for ParseState {
    /// Parsing starts at the head of a schema block.
    fn default() -> (s: ParseState)
        ensures
            s == ParseState::ExpectingColStart,
    {
        ParseState::ExpectingColStart
    }
}

/// The input class each state accepts, and the state it then moves
/// to; `None` is a syntax error.
pub open spec fn state_next(s: ParseState, l: Seq<char>) -> Option<ParseState> {
    match s {
        ParseState::ExpectingColStart => if l == col_start_text() {
            Some(ParseState::ExpectingColName)
        } else {
            None
        },
        ParseState::ExpectingColName => if is_quoted_tok(l) {
            Some(ParseState::ExpectingColValue)
        } else if l == col_end_text() {
            Some(ParseState::ExpectingRowStart)
        } else {
            None
        },
        ParseState::ExpectingColValue => if l == quote_of(str_type_text()) || l == quote_of(
            num_type_text(),
        ) {
            Some(ParseState::ExpectingColName)
        } else {
            None
        },
        ParseState::ExpectingRowStart => if l == rstart_text() {
            Some(ParseState::ExpectingCellValue)
        } else {
            None
        },
        ParseState::ExpectingCellValue => if is_quoted_tok(l) {
            Some(ParseState::ExpectingCellValue)
        } else if l == rend_text() {
            Some(ParseState::ExpectingRowStart)
        } else {
            None
        },
    }
}

impl ParseState {
    /// One transition of the bare state machine: accepts exactly the
    /// documented input class of the current state.
    pub fn next(prev_state: &Self, inp: &str) -> (r: Result<ParseState, &'static str>)
        ensures
            match state_next(*prev_state, inp@) {
                Some(s) => r == Ok::<ParseState, &'static str>(s),
                None => r is Err,
            },
    {
        match prev_state {
            ParseState::ExpectingColStart => {
                if is_col_start(inp) {
                    Ok(ParseState::ExpectingColName)
                } else {
                    Err("syntax error")
                }
            },
            ParseState::ExpectingColName => {
                if is_quoted(inp) {
                    Ok(ParseState::ExpectingColValue)
                } else if is_col_end(inp) {
                    Ok(ParseState::ExpectingRowStart)
                } else {
                    Err("syntax error")
                }
            },
            ParseState::ExpectingColValue => {
                if is_quoted_str_type(inp) || is_quoted_num_type(inp) {
                    Ok(ParseState::ExpectingColName)
                } else {
                    Err("syntax error")
                }
            },
            ParseState::ExpectingRowStart => {
                if is_rstart(inp) {
                    Ok(ParseState::ExpectingCellValue)
                } else {
                    Err("syntax error")
                }
            },
            ParseState::ExpectingCellValue => {
                if is_quoted(inp) {
                    Ok(ParseState::ExpectingCellValue)
                } else if is_rend(inp) {
                    Ok(ParseState::ExpectingRowStart)
                } else {
                    Err("syntax error")
                }
            },
        }
    }
}

/// Character-by-character string comparison.
pub(crate) fn str_eq_str(a: &str, b: &str) -> (r: bool)
    ensures
        r == (a@ == b@),
{
    let la = a.unicode_len();
    let lb = b.unicode_len();
    if la != lb {
        return false;
    }
    let mut i: usize = 0;
    while i < la
        invariant
            i <= la,
            la == a@.len(),
            la == b@.len(),
            forall|j: int| 0 <= j < i ==> a@[j] == b@[j],
        decreases la - i,
    {
        if a.get_char(i) != b.get_char(i) {
            return false;
        }
        i = i + 1;
    }
    proof {
        assert(a@ =~= b@);
    }
    true
}

fn is_col_start(l: &str) -> (r: bool)
    ensures
        r == (l@ == col_start_text()),
{
    let r = str_eq_str(l, "ColDescStart");
    proof {
        reveal_strlit("ColDescStart");
        assert("ColDescStart"@ =~= col_start_text());
    }
    r
}

fn is_col_end(l: &str) -> (r: bool)
    ensures
        r == (l@ == col_end_text()),
{
    let r = str_eq_str(l, "ColDescEnd");
    proof {
        reveal_strlit("ColDescEnd");
        assert("ColDescEnd"@ =~= col_end_text());
    }
    r
}

fn is_rstart(l: &str) -> (r: bool)
    ensures
        r == (l@ == rstart_text()),
{
    let r = str_eq_str(l, "RStart");
    proof {
        reveal_strlit("RStart");
        assert("RStart"@ =~= rstart_text());
    }
    r
}

fn is_rend(l: &str) -> (r: bool)
    ensures
        r == (l@ == rend_text()),
{
    let r = str_eq_str(l, "REnd");
    proof {
        reveal_strlit("REnd");
        assert("REnd"@ =~= rend_text());
    }
    r
}

fn is_quoted_str_type(l: &str) -> (r: bool)
    ensures
        r == (l@ == quote_of(str_type_text())),
{
    let r = str_eq_str(l, "\"String\"");
    proof {
        reveal_strlit("\"String\"");
        assert("\"String\""@ =~= quote_of(str_type_text()));
    }
    r
}

fn is_quoted_num_type(l: &str) -> (r: bool)
    ensures
        r == (l@ == quote_of(num_type_text())),
{
    let r = str_eq_str(l, "\"Num\"");
    proof {
        reveal_strlit("\"Num\"");
        assert("\"Num\""@ =~= quote_of(num_type_text()));
    }
    r
}

fn is_quoted(l: &str) -> (r: bool)
    ensures
        r == is_quoted_tok(l@),
{
    let n = l.unicode_len();
    if n < 2 {
        return false;
    }
    l.get_char(0) == '"' && l.get_char(n - 1) == '"'
}

/// The value of a quoted token, as an owned string.
fn strip_quotes(l: &str) -> (r: String)
    requires
        is_quoted_tok(l@),
    ensures
        r@ == strip_tok(l@),
{
    let n = l.unicode_len();
    l.substring_char(1, n - 1).to_owned()
}

/// The parser's mathematical state: the machine state, the schema and
/// rows accumulated so far, and the token buffer of the open block.
pub struct ParserV {
    pub state: ParseState,
    pub cols: Seq<ColV>,
    pub rows: Seq<Seq<CellV>>,
    pub buffer: Seq<Seq<char>>,
}

/// What one accepted line reports to the caller, so that a schema-only
/// reader can stop pulling lines as soon as the schema is ready.
#[derive(Clone, Copy, Debug, PartialEq, Eq, Structural)]
pub enum ParseEvent {
    /// The line was consumed; nothing completed.
    Progress,
    /// The line closed the schema block.
    SchemaComplete,
    /// The line closed a row block; one row was appended.
    RowComplete,
}

/// The outcome of one step: the next parser state with an event, or
/// an error that leaves the parser untouched.
pub enum StepOut {
    Step(ParserV, ParseEvent),
    Fail(TableLikeError),
}

/// Drains a schema buffer two tokens at a time, in order: a column
/// name, then a type name that must be exactly `String` or `Num`; a
/// trailing unpaired token is dropped.
pub open spec fn drain_cols(buf: Seq<Seq<char>>) -> Option<Seq<ColV>>
    decreases buf.len(),
{
    if buf.len() < 2 {
        Some(Seq::empty())
    } else if buf[1] == str_type_text() {
        match drain_cols(buf.skip(2)) {
            Some(rest) => Some(seq![ColV { name: buf[0], ty: CellV::Str(None) }] + rest),
            None => None,
        }
    } else if buf[1] == num_type_text() {
        match drain_cols(buf.skip(2)) {
            Some(rest) => Some(seq![ColV { name: buf[0], ty: CellV::Num(None) }] + rest),
            None => None,
        }
    } else {
        None
    }
}

/// Decodes one cell text against a column tag: a string column keeps
/// the text as-is, a numeric column parses it in base 10.
pub open spec fn decode_cell(tag: CellV, txt: Seq<char>) -> Option<CellV> {
    match tag {
        CellV::Str(_) => Some(CellV::Str(Some(txt))),
        CellV::Num(_) => match parse_num(txt) {
            Some(v) => Some(CellV::Num(Some(v))),
            None => None,
        },
    }
}

/// Decodes the first `n` buffered cell texts positionally.
pub open spec fn decode_row_to(cols: Seq<ColV>, buf: Seq<Seq<char>>, n: int) -> Option<Seq<CellV>>
    decreases n,
{
    if n <= 0 {
        Some(Seq::empty())
    } else {
        match decode_row_to(cols, buf, n - 1) {
            None => None,
            Some(pre) => match decode_cell(cols[n - 1].ty, buf[n - 1]) {
                None => None,
                Some(c) => Some(pre.push(c)),
            },
        }
    }
}

/// Decodes a full row buffer against the schema.
pub open spec fn decode_row(cols: Seq<ColV>, buf: Seq<Seq<char>>) -> Option<Seq<CellV>>
    recommends
        buf.len() == cols.len(),
{
    decode_row_to(cols, buf, buf.len() as int)
}

/// One step of the parser on one line: the transition table.  Any
/// line outside the current state's input class is a syntax error; a
/// closed row block must match the schema's column count and decode,
/// else the step fails with the parser untouched.
pub open spec fn step(p: ParserV, l: Seq<char>) -> StepOut {
    match p.state {
        ParseState::ExpectingColStart => if l == col_start_text() {
            StepOut::Step(
                ParserV { state: ParseState::ExpectingColName, ..p },
                ParseEvent::Progress,
            )
        } else {
            StepOut::Fail(TableLikeError::SyntaxError)
        },
        ParseState::ExpectingColName => if is_quoted_tok(l) {
            StepOut::Step(
                ParserV {
                    state: ParseState::ExpectingColValue,
                    buffer: p.buffer.push(strip_tok(l)),
                    ..p
                },
                ParseEvent::Progress,
            )
        } else if l == col_end_text() {
            match drain_cols(p.buffer) {
                Some(cs) => StepOut::Step(
                    ParserV {
                        state: ParseState::ExpectingRowStart,
                        cols: p.cols + cs,
                        buffer: Seq::empty(),
                        ..p
                    },
                    ParseEvent::SchemaComplete,
                ),
                None => StepOut::Fail(TableLikeError::SyntaxError),
            }
        } else {
            StepOut::Fail(TableLikeError::SyntaxError)
        },
        ParseState::ExpectingColValue => if l == quote_of(str_type_text()) || l == quote_of(
            num_type_text(),
        ) {
            StepOut::Step(
                ParserV {
                    state: ParseState::ExpectingColName,
                    buffer: p.buffer.push(strip_tok(l)),
                    ..p
                },
                ParseEvent::Progress,
            )
        } else {
            StepOut::Fail(TableLikeError::SyntaxError)
        },
        ParseState::ExpectingRowStart => if l == rstart_text() {
            StepOut::Step(
                ParserV { state: ParseState::ExpectingCellValue, buffer: Seq::empty(), ..p },
                ParseEvent::Progress,
            )
        } else {
            StepOut::Fail(TableLikeError::SyntaxError)
        },
        ParseState::ExpectingCellValue => if is_quoted_tok(l) {
            StepOut::Step(
                ParserV {
                    state: ParseState::ExpectingCellValue,
                    buffer: p.buffer.push(strip_tok(l)),
                    ..p
                },
                ParseEvent::Progress,
            )
        } else if l == rend_text() {
            if p.buffer.len() != p.cols.len() {
                StepOut::Fail(TableLikeError::LengthMismatch)
            } else {
                match decode_row(p.cols, p.buffer) {
                    Some(r) => StepOut::Step(
                        ParserV {
                            state: ParseState::ExpectingRowStart,
                            rows: p.rows.push(r),
                            buffer: Seq::empty(),
                            ..p
                        },
                        ParseEvent::RowComplete,
                    ),
                    None => StepOut::Fail(TableLikeError::DecodeError),
                }
            }
        } else {
            StepOut::Fail(TableLikeError::SyntaxError)
        },
    }
}

/// Feeding a whole line sequence: steps through the lines in order
/// and stops at the first failure.
pub open spec fn run(p: ParserV, lines: Seq<Seq<char>>) -> Result<ParserV, TableLikeError>
    decreases lines.len(),
{
    if lines.len() == 0 {
        Ok(p)
    } else {
        match step(p, lines[0]) {
            StepOut::Step(p2, _) => run(p2, lines.skip(1)),
            StepOut::Fail(e) => Err(e),
        }
    }
}

/// Parser determinism: feeding a line sequence in one batch or split
/// at any point accumulates exactly the same schema and rows, since
/// the outcome is a function of the lines alone.
pub proof fn lemma_run_split(p: ParserV, a: Seq<Seq<char>>, b: Seq<Seq<char>>)
    ensures
        run(p, a + b) == (match run(p, a) {
            Ok(q) => run(q, b),
            Err(e) => Err::<ParserV, TableLikeError>(e),
        }),
    decreases a.len(),
{
    if a.len() == 0 {
        assert(a + b =~= b);
    } else {
        assert((a + b)[0] == a[0]);
        match step(p, a[0]) {
            StepOut::Step(p2, _) => {
                assert((a + b).skip(1) =~= a.skip(1) + b);
                lemma_run_split(p2, a.skip(1), b);
            },
            StepOut::Fail(_) => {},
        }
    }
}

/// State-machine totality: from each state, a line outside that
/// state's documented input class fails with a syntax error, and an
/// accepted step moves exactly as the bare state machine says.  The
/// failing call leaves the parser unchanged (see `TableParser::next`).
pub proof fn lemma_state_totality(p: ParserV, l: Seq<char>)
    ensures
        state_next(p.state, l) is None ==> step(p, l) == StepOut::Fail(TableLikeError::SyntaxError),
        step(p, l) matches StepOut::Step(p2, _) ==> state_next(p.state, l) == Some(p2.state),
{
}

/// Row-length invariant: closing a row block whose cell count differs
/// from the schema's column count fails with a length mismatch; the
/// failing call leaves schema, rows and state unchanged (see
/// `TableParser::next`).
pub proof fn lemma_row_length_mismatch(p: ParserV, l: Seq<char>)
    requires
        p.state == ParseState::ExpectingCellValue,
        l == rend_text(),
        p.buffer.len() != p.cols.len(),
    ensures
        step(p, l) == StepOut::Fail(TableLikeError::LengthMismatch),
{
    assert(!is_quoted_tok(l));
}

/// The table parser: the machine state plus the accumulating table
/// and the token buffer of the currently open block.
pub struct TableParser {
    pub table: Table,
    pub state: ParseState,
    pub buffer: Vec<String>,
}

impl View for TableParser {
    type V = ParserV;

    open spec fn view(&self) -> ParserV {
        ParserV {
            state: self.state,
            cols: self.table@.cols,
            rows: self.table@.rows,
            buffer: self.buffer.deep_view(),
        }
    }
}

impl Default for TableParser {
    /// A fresh parser: initial state, empty table, empty buffer.
    fn default() -> (p: TableParser)
        ensures
            p@.state == ParseState::ExpectingColStart,
            p@.cols.len() == 0,
            p@.rows.len() == 0,
            p@.buffer.len() == 0,
            p.table@.name is None,
    {
        TableParser {
            table: Table::default(),
            state: ParseState::ExpectingColStart,
            buffer: Vec::new(),
        }
    }
}

/// Drains the schema buffer into column entries, two tokens a pair.
fn drain_buffer(buf: &Vec<String>) -> (r: Result<Vec<ColumnEntry>, TableLikeError>)
    ensures
        match drain_cols(buf.deep_view()) {
            Some(cs) => r matches Ok(v) && v.deep_view() == cs,
            None => r == Err::<Vec<ColumnEntry>, TableLikeError>(TableLikeError::SyntaxError),
        },
{
    let mut out: Vec<ColumnEntry> = Vec::new();
    let mut i: usize = 0;
    proof {
        assert(buf.deep_view().skip(0) =~= buf.deep_view());
        match drain_cols(buf.deep_view()) {
            Some(rest) => {
                assert(out.deep_view() + rest =~= rest);
            },
            None => {},
        }
    }
    while buf.len() - i > 1
        invariant
            i <= buf.len(),
            match drain_cols(buf.deep_view().skip(i as int)) {
                Some(rest) => drain_cols(buf.deep_view()) == Some(out.deep_view() + rest),
                None => drain_cols(buf.deep_view()) is None,
            },
        decreases buf.len() - i,
    {
        let ghost sub = buf.deep_view().skip(i as int);
        proof {
            assert(sub.len() >= 2);
            assert(sub[0] == buf.deep_view()[i as int]);
            assert(sub[1] == buf.deep_view()[i + 1]);
            assert(sub.skip(2) =~= buf.deep_view().skip(i + 2));
        }
        let name = buf[i].clone();
        let ty = &buf[i + 1];
        let col_type = if str_eq_str(ty.as_str(), "String") {
            proof {
                reveal_strlit("String");
                assert("String"@ =~= str_type_text());
            }
            TableCell::Str(None)
        } else if str_eq_str(ty.as_str(), "Num") {
            proof {
                reveal_strlit("String");
                reveal_strlit("Num");
                assert("Num"@ =~= num_type_text());
            }
            TableCell::Num(None)
        } else {
            proof {
                reveal_strlit("String");
                reveal_strlit("Num");
                assert("String"@ =~= str_type_text());
                assert("Num"@ =~= num_type_text());
                assert(drain_cols(sub) is None);
            }
            return Err(TableLikeError::SyntaxError);
        };
        let ghost prev = out.deep_view();
        let ghost colv = ColV { name: name@, ty: col_type@ };
        out.push(ColumnEntry { col_name: name, col_type });
        proof {
            assert(out.deep_view() =~= prev + seq![colv]);
            match drain_cols(sub.skip(2)) {
                Some(rest2) => {
                    assert(drain_cols(sub) == Some(seq![colv] + rest2));
                    assert(prev + (seq![colv] + rest2) =~= (prev + seq![colv]) + rest2);
                },
                None => {
                    assert(drain_cols(sub) is None);
                },
            }
        }
        i = i + 2;
    }
    proof {
        let sub = buf.deep_view().skip(i as int);
        assert(sub.len() < 2);
        assert(drain_cols(sub) == Some(Seq::<ColV>::empty()));
        assert(out.deep_view() + Seq::<ColV>::empty() =~= out.deep_view());
    }
    Ok(out)
}

proof fn lemma_decode_none_mono(cols: Seq<ColV>, buf: Seq<Seq<char>>, k: int, m: int)
    requires
        0 <= k <= m,
        decode_row_to(cols, buf, k) is None,
    ensures
        decode_row_to(cols, buf, m) is None,
    decreases m,
{
    if m > k {
        lemma_decode_none_mono(cols, buf, k, m - 1);
    }
}

/// Decodes the buffered cell texts of one row block positionally
/// against the schema's column tags.
fn decode_buffer(cols: &Vec<ColumnEntry>, buf: &Vec<String>) -> (r: Result<
    Vec<TableCell>,
    TableLikeError,
>)
    requires
        buf.len() == cols.len(),
    ensures
        match decode_row(cols.deep_view(), buf.deep_view()) {
            Some(cells) => r matches Ok(v) && v.deep_view() == cells,
            None => r == Err::<Vec<TableCell>, TableLikeError>(TableLikeError::DecodeError),
        },
{
    let n = buf.len();
    let mut out: Vec<TableCell> = Vec::new();
    let mut i: usize = 0;
    proof {
        assert(decode_row_to(cols.deep_view(), buf.deep_view(), 0) == Some(out.deep_view()));
    }
    while i < n
        invariant
            i <= n,
            n == buf.len(),
            buf.len() == cols.len(),
            decode_row_to(cols.deep_view(), buf.deep_view(), i as int) == Some(out.deep_view()),
        decreases n - i,
    {
        let ghost prev = out.deep_view();
        let cell = match &cols[i].col_type {
            TableCell::Str(_) => TableCell::Str(Some(buf[i].clone())),
            TableCell::Num(_) => {
                match parse_num_str(buf[i].as_str()) {
                    Some(v) => TableCell::Num(Some(v)),
                    None => {
                        proof {
                            assert(decode_row_to(cols.deep_view(), buf.deep_view(), i + 1)
                                is None);
                            lemma_decode_none_mono(
                                cols.deep_view(),
                                buf.deep_view(),
                                i + 1,
                                n as int,
                            );
                        }
                        return Err(TableLikeError::DecodeError);
                    },
                }
            },
        };
        let ghost cellv = cell@;
        out.push(cell);
        proof {
            assert(decode_cell(cols.deep_view()[i as int].ty, buf.deep_view()[i as int]) == Some(
                cellv,
            ));
            assert(out.deep_view() =~= prev.push(cellv));
        }
        i = i + 1;
    }
    Ok(out)
}

impl TableParser {
    /// Feeds one line.  On success the result says whether the line
    /// completed the schema or a row; on failure the parser is left
    /// exactly as it was.
    pub fn next(&mut self, inp: String) -> (r: Result<ParseEvent, TableLikeError>)
        ensures
            match step(old(self)@, inp@) {
                StepOut::Step(p2, ev) => r == Ok::<ParseEvent, TableLikeError>(ev) && final(self)@
                    == p2,
                StepOut::Fail(e) => r == Err::<ParseEvent, TableLikeError>(e) && final(self)@
                    == old(self)@,
            },
            final(self).table.name == old(self).table.name,
    {
        match self.state {
            ParseState::ExpectingColStart => {
                if is_col_start(inp.as_str()) {
                    self.state = ParseState::ExpectingColName;
                    Ok(ParseEvent::Progress)
                } else {
                    Err(TableLikeError::SyntaxError)
                }
            },
            ParseState::ExpectingColName => {
                if is_quoted(inp.as_str()) {
                    let tok = strip_quotes(inp.as_str());
                    self.buffer.push(tok);
                    self.state = ParseState::ExpectingColValue;
                    proof {
                        assert(self@.buffer =~= old(self)@.buffer.push(strip_tok(inp@)));
                    }
                    Ok(ParseEvent::Progress)
                } else if is_col_end(inp.as_str()) {
                    match drain_buffer(&self.buffer) {
                        Ok(cs) => {
                            let ghost csv = cs.deep_view();
                            let mut cs = cs;
                            self.table.col_names.append(&mut cs);
                            self.buffer = Vec::new();
                            self.state = ParseState::ExpectingRowStart;
                            proof {
                                assert(self@.cols =~= old(self)@.cols + csv);
                                assert(self@.buffer =~= Seq::<Seq<char>>::empty());
                            }
                            Ok(ParseEvent::SchemaComplete)
                        },
                        Err(e) => Err(e),
                    }
                } else {
                    Err(TableLikeError::SyntaxError)
                }
            },
            ParseState::ExpectingColValue => {
                if is_quoted_str_type(inp.as_str()) || is_quoted_num_type(inp.as_str()) {
                    proof {
                        assert(is_quoted_tok(inp@));
                    }
                    let tok = strip_quotes(inp.as_str());
                    self.buffer.push(tok);
                    self.state = ParseState::ExpectingColName;
                    proof {
                        assert(self@.buffer =~= old(self)@.buffer.push(strip_tok(inp@)));
                    }
                    Ok(ParseEvent::Progress)
                } else {
                    Err(TableLikeError::SyntaxError)
                }
            },
            ParseState::ExpectingRowStart => {
                if is_rstart(inp.as_str()) {
                    self.buffer.clear();
                    self.state = ParseState::ExpectingCellValue;
                    proof {
                        assert(self@.buffer =~= Seq::<Seq<char>>::empty());
                    }
                    Ok(ParseEvent::Progress)
                } else {
                    Err(TableLikeError::SyntaxError)
                }
            },
            ParseState::ExpectingCellValue => {
                if is_quoted(inp.as_str()) {
                    let tok = strip_quotes(inp.as_str());
                    self.buffer.push(tok);
                    proof {
                        assert(self@.buffer =~= old(self)@.buffer.push(strip_tok(inp@)));
                    }
                    Ok(ParseEvent::Progress)
                } else if is_rend(inp.as_str()) {
                    if self.buffer.len() != self.table.col_names.len() {
                        return Err(TableLikeError::LengthMismatch);
                    }
                    match decode_buffer(&self.table.col_names, &self.buffer) {
                        Ok(cells) => {
                            let ghost cellsv = cells.deep_view();
                            self.table.all.push(TableEntry { col_data: cells });
                            self.buffer.clear();
                            self.state = ParseState::ExpectingRowStart;
                            proof {
                                assert(self@.rows =~= old(self)@.rows.push(cellsv));
                                assert(self@.buffer =~= Seq::<Seq<char>>::empty());
                            }
                            Ok(ParseEvent::RowComplete)
                        },
                        Err(e) => Err(e),
                    }
                } else {
                    Err(TableLikeError::SyntaxError)
                }
            },
        }
    }
}

} // verus!
