//! The typed cell, the leaf of the data model.

use crate::num::dec_int;
use crate::num::num_to_string;
use vstd::prelude::*;

verus! {

/// The payload type of numeric cells.
pub type NumType = i64;

/// A tagged cell value; an absent payload denotes NULL.  The variant
/// is fixed per column position.
#[derive(Debug, PartialEq)]
pub enum TableCell {
    Num(Option<NumType>),
    Str(Option<String>),
}

/// The mathematical value of a cell.
pub enum CellV {
    Num(Option<i64>),
    Str(Option<Seq<char>>),
}

impl View for TableCell {
    type V = CellV;

    open spec fn view(&self) -> CellV {
        match self {
            TableCell::Num(p) => CellV::Num(*p),
            TableCell::Str(p) => CellV::Str(
                match p {
                    Some(s) => Some(s@),
                    None => None,
                },
            ),
        }
    }
}

impl DeepView for TableCell {
    type V = CellV;

    open spec fn deep_view(&self) -> CellV {
        self.view()
    }
}

impl Clone for TableCell {
    /// A cloned cell is the same value.
    fn clone(&self) -> (r: TableCell)
        ensures
            r == *self,
    {
        match self {
            TableCell::Num(p) => TableCell::Num(
                match p {
                    Some(v) => Some(*v),
                    None => None,
                },
            ),
            TableCell::Str(p) => TableCell::Str(
                match p {
                    Some(s) => Some(s.clone()),
                    None => None,
                },
            ),
        }
    }
}

/// The text a NULL cell serializes as.  On read it cannot be told
/// apart from a string cell holding this very text.
pub open spec fn null_text() -> Seq<char> {
    seq!['N', 'U', 'L', 'L']
}

/// The serialized text of a cell: decimal digits for a numeric value,
/// the text itself for a string value, `NULL` for an absent payload.
pub open spec fn cell_text(c: CellV) -> Seq<char> {
    match c {
        CellV::Num(Some(v)) => dec_int(v as int),
        CellV::Str(Some(s)) => s,
        _ => null_text(),
    }
}

/// Whether a cell carries the variant that a column tag prescribes.
pub open spec fn tag_matches(tag: CellV, c: CellV) -> bool {
    match (tag, c) {
        (CellV::Num(_), CellV::Num(_)) => true,
        (CellV::Str(_), CellV::Str(_)) => true,
        _ => false,
    }
}

/// A bare tag: a cell used as a type marker only, with no payload.
pub open spec fn is_bare_tag(t: CellV) -> bool {
    t == CellV::Num(None) || t == CellV::Str(None)
}

/// A cell whose payload is present, not NULL.
pub open spec fn is_present(c: CellV) -> bool {
    match c {
        CellV::Num(p) => p is Some,
        CellV::Str(p) => p is Some,
    }
}

/// A row with every payload present.
pub open spec fn row_present(r: Seq<CellV>) -> bool {
    forall|i: int| 0 <= i < r.len() ==> is_present(#[trigger] r[i])
}

impl TableCell {
    /// The serialized text of this cell.
    pub fn to_text(&self) -> (s: String)
        ensures
            s@ == cell_text(self@),
    {
        match self {
            TableCell::Num(Some(v)) => num_to_string(*v),
            TableCell::Str(Some(s)) => s.clone(),
            _ => {
                let s = String::from_str("NULL");
                proof {
                    reveal_strlit("NULL");
                    assert(s@ =~= null_text());
                }
                s
            },
        }
    }

    /// Character count of the cell's serialized text.
    pub fn get_len(&self) -> (n: usize)
        ensures
            n == cell_text(self@).len(),
    {
        let t = self.to_text();
        t.as_str().unicode_len()
    }
}

} // verus!
