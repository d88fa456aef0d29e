//! The lazy, forward-only row iterator: holds a parser already
//! advanced past the schema and the lines positioned right after the
//! schema block, and yields one row per closed row block, bounded by
//! one in-flight row of working state.

use crate::cell::CellV;
use crate::error::TableLikeError;
use crate::parse::run;
use crate::parse::step;
use crate::parse::ParseEvent;
use crate::parse::ParserV;
use crate::parse::StepOut;
use crate::parse::TableParser;
use crate::table::TableEntry;
use vstd::prelude::*;

verus! {

/// The items a streaming read of `lines` yields from parser state
/// `p`: each completed row in order; at the first parse failure
/// exactly one error item, and the sequence ends there.
pub open spec fn stream(p: ParserV, lines: Seq<Seq<char>>) -> Seq<
    Result<Seq<CellV>, TableLikeError>,
>
    decreases lines.len(),
{
    if lines.len() == 0 {
        Seq::empty()
    } else {
        match step(p, lines[0]) {
            StepOut::Step(p2, ev) => if ev == ParseEvent::RowComplete {
                seq![Ok(p2.rows.last())] + stream(p2, lines.skip(1))
            } else {
                stream(p2, lines.skip(1))
            },
            StepOut::Fail(e) => seq![Err(e)],
        }
    }
}

/// What a stream yields does not depend on the rows already parsed.
proof fn lemma_stream_rows(p1: ParserV, p2: ParserV, lines: Seq<Seq<char>>)
    requires
        p1.state == p2.state,
        p1.cols == p2.cols,
        p1.buffer == p2.buffer,
    ensures
        stream(p1, lines) == stream(p2, lines),
    decreases lines.len(),
{
    if lines.len() > 0 {
        match step(p1, lines[0]) {
            StepOut::Step(q1, ev) => {
                match step(p2, lines[0]) {
                    StepOut::Step(q2, ev2) => {
                        assert(ev2 == ev);
                        assert(q1.state == q2.state && q1.cols == q2.cols && q1.buffer
                            == q2.buffer);
                        lemma_stream_rows(q1, q2, lines.skip(1));
                        if ev == ParseEvent::RowComplete {
                            assert(q1.rows.last() == q2.rows.last());
                        }
                    },
                    StepOut::Fail(_) => {
                        assert(false);
                    },
                }
            },
            StepOut::Fail(e) => {
                assert(step(p2, lines[0]) == StepOut::Fail(e));
            },
        }
    }
}

/// Streaming equivalence: when the whole line sequence parses, the
/// stream yields exactly the rows that a full parse into memory
/// accumulates, in the same order, each wrapped in `Ok`.
pub proof fn lemma_stream_equivalence(p: ParserV, lines: Seq<Seq<char>>)
    ensures
        run(p, lines) matches Ok(q) ==> {
            &&& q.rows.len() >= p.rows.len()
            &&& q.rows.take(p.rows.len() as int) == p.rows
            &&& stream(p, lines) == q.rows.skip(p.rows.len() as int).map_values(
                |r: Seq<CellV>| Ok::<Seq<CellV>, TableLikeError>(r),
            )
        },
    decreases lines.len(),
{
    if lines.len() == 0 {
        assert(p.rows.take(p.rows.len() as int) =~= p.rows);
        assert(p.rows.skip(p.rows.len() as int) =~= Seq::<Seq<CellV>>::empty());
        assert(Seq::<Seq<CellV>>::empty().map_values(
            |r: Seq<CellV>| Ok::<Seq<CellV>, TableLikeError>(r),
        ) =~= Seq::<Result<Seq<CellV>, TableLikeError>>::empty());
    } else {
        match step(p, lines[0]) {
            StepOut::Step(p2, ev) => {
                lemma_stream_equivalence(p2, lines.skip(1));
                match run(p2, lines.skip(1)) {
                    Ok(q) => {
                        if ev == ParseEvent::RowComplete {
                            let r = p2.rows.last();
                            assert(p2.rows == p.rows.push(r));
                            assert(p2.rows.take(p.rows.len() as int) =~= p.rows);
                            assert(q.rows.take(p.rows.len() as int) =~= p.rows);
                            assert(q.rows[p.rows.len() as int] == p2.rows[p.rows.len() as int]);
                            assert(stream(p, lines) == seq![
                                Ok::<Seq<CellV>, TableLikeError>(r),
                            ] + stream(p2, lines.skip(1)));
                            assert(stream(p, lines) =~= q.rows.skip(
                                p.rows.len() as int,
                            ).map_values(|r: Seq<CellV>| Ok::<Seq<CellV>, TableLikeError>(r)));
                        } else {
                            assert(p2.rows == p.rows);
                            assert(stream(p, lines) == stream(p2, lines.skip(1)));
                        }
                    },
                    Err(_) => {},
                }
            },
            StepOut::Fail(_) => {},
        }
    }
}

/// The lazy row iterator.  Non-restartable; after its single error
/// item, or after the lines end, every further pull yields nothing.
pub struct Iter {
    /// The parser, already advanced past the schema block.
    pub par: TableParser,
    /// The file's lines.
    pub lines: Vec<String>,
    /// The next line to read, positioned after the schema block.
    pub pos: usize,
    /// Whether the single terminal error was already yielded.
    pub failed: bool,
}

impl Iter {
    /// The iterator reads inside its line buffer.
    pub open spec fn wf(&self) -> bool {
        self.pos <= self.lines.len()
    }

    /// The items this iterator will still yield, in order.
    pub open spec fn remaining(&self) -> Seq<Result<Seq<CellV>, TableLikeError>> {
        if self.failed {
            Seq::empty()
        } else {
            stream(self.par@, self.lines.deep_view().skip(self.pos as int))
        }
    }

    /// Positions a fresh iterator on `lines` at line `pos`, continuing
    /// with `par`, which must already have consumed the schema block.
    pub fn new(par: TableParser, lines: Vec<String>, pos: usize) -> (it: Iter)
        requires
            pos <= lines.len(),
        ensures
            it.wf(),
            it.par == par,
            it.lines == lines,
            it.pos == pos,
            !it.failed,
    {
        Iter { par, lines, pos, failed: false }
    }

    /// Pulls the next row.  Yields each completed row in file order;
    /// at the first parse failure yields exactly one error and ends;
    /// yields nothing once the lines are exhausted.
    pub fn next(&mut self) -> (r: Option<Result<TableEntry, TableLikeError>>)
        requires
            old(self).wf(),
        ensures
            final(self).wf(),
            match r {
                None => old(self).remaining().len() == 0 && final(self).remaining().len() == 0,
                Some(Ok(row)) => old(self).remaining().len() > 0 && old(self).remaining()[0]
                    == Ok::<Seq<CellV>, TableLikeError>(row@) && final(self).remaining() == old(
                    self,
                ).remaining().skip(1),
                Some(Err(e)) => old(self).remaining().len() > 0 && old(self).remaining()[0]
                    == Err::<Seq<CellV>, TableLikeError>(e) && final(self).remaining().len() == 0,
            },
    {
        if self.failed {
            return None;
        }
        while self.pos < self.lines.len()
            invariant
                self.pos <= self.lines.len(),
                !self.failed,
                self.lines == old(self).lines,
                !old(self).failed,
                stream(self.par@, self.lines.deep_view().skip(self.pos as int)) == old(
                    self,
                ).remaining(),
            decreases self.lines.len() - self.pos,
        {
            let ghost pp = self.par@;
            let ghost rest = self.lines.deep_view().skip(self.pos as int);
            let line = self.lines[self.pos].clone();
            proof {
                assert(rest[0] == line@);
                assert(rest.skip(1) =~= self.lines.deep_view().skip(self.pos + 1));
            }
            self.pos = self.pos + 1;
            match self.par.next(line) {
                Ok(ev) => {
                    if ev == ParseEvent::RowComplete {
                        let ghost p2 = self.par@;
                        proof {
                            assert(stream(pp, rest) == seq![
                                Ok::<Seq<CellV>, TableLikeError>(p2.rows.last()),
                            ] + stream(p2, rest.skip(1)));
                        }
                        match self.par.table.all.pop() {
                            Some(row) => {
                                proof {
                                    assert(row@ == p2.rows.last());
                                    lemma_stream_rows(
                                        self.par@,
                                        p2,
                                        self.lines.deep_view().skip(self.pos as int),
                                    );
                                    assert(self.remaining() =~= old(self).remaining().skip(1));
                                }
                                return Some(Ok(row));
                            },
                            None => {
                                proof {
                                    assert(p2.rows.len() > 0);
                                    assert(false);
                                }
                                return None;
                            },
                        }
                    } else {
                        proof {
                            assert(stream(pp, rest) == stream(self.par@, rest.skip(1)));
                        }
                    }
                },
                Err(e) => {
                    self.failed = true;
                    proof {
                        assert(stream(pp, rest) == seq![
                            Err::<Seq<CellV>, TableLikeError>(e),
                        ]);
                        assert(old(self).remaining()[0] == Err::<Seq<CellV>, TableLikeError>(e));
                    }
                    return Some(Err(e));
                },
            }
        }
        proof {
            assert(self.lines.deep_view().skip(self.pos as int) =~= Seq::<Seq<char>>::empty());
        }
        None
    }
}

} // verus!
