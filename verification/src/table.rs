//! Columns, rows, and the in-memory table variant.

use crate::cell::is_bare_tag;
use crate::cell::tag_matches;
use crate::cell::CellV;
use crate::cell::TableCell;
use crate::error::TableLikeError;
use vstd::prelude::*;

verus! {

/// Rows an in-memory table accepts from a flush before it fails.
pub const MAX_MEM_LIM: usize = 4096;

/// A schema slot: a column name and a type tag; carries no value.
#[derive(Debug, PartialEq)]
pub struct ColumnEntry {
    pub col_name: String,
    pub col_type: TableCell,
}

/// The mathematical value of a schema slot.
pub struct ColV {
    pub name: Seq<char>,
    pub ty: CellV,
}

impl View for ColumnEntry {
    type V = ColV;

    open spec fn view(&self) -> ColV {
        ColV { name: self.col_name@, ty: self.col_type@ }
    }
}

impl DeepView for ColumnEntry {
    type V = ColV;

    open spec fn deep_view(&self) -> ColV {
        self.view()
    }
}

impl Clone for ColumnEntry {
    /// A cloned schema slot is the same value.
    fn clone(&self) -> (r: ColumnEntry)
        ensures
            r == *self,
    {
        ColumnEntry { col_name: self.col_name.clone(), col_type: self.col_type.clone() }
    }
}

/// The text a numeric column's type serializes as.
pub open spec fn num_type_text() -> Seq<char> {
    seq!['N', 'u', 'm']
}

/// The text a string column's type serializes as.
pub open spec fn str_type_text() -> Seq<char> {
    seq!['S', 't', 'r', 'i', 'n', 'g']
}

/// The type name of a column tag.
pub open spec fn type_text(t: CellV) -> Seq<char> {
    match t {
        CellV::Num(_) => num_type_text(),
        CellV::Str(_) => str_type_text(),
    }
}

impl ColumnEntry {
    /// The type name this column serializes as.
    pub fn write_type(&self) -> (r: &str)
        ensures
            r@ == type_text(self@.ty),
    {
        match self.col_type {
            TableCell::Num(_) => {
                let r = "Num";
                proof {
                    reveal_strlit("Num");
                    assert(r@ =~= num_type_text());
                }
                r
            },
            TableCell::Str(_) => {
                let r = "String";
                proof {
                    reveal_strlit("String");
                    assert(r@ =~= str_type_text());
                }
                r
            },
        }
    }
}

/// One row: an ordered sequence of cells.
#[derive(Debug, PartialEq)]
pub struct TableEntry {
    pub col_data: Vec<TableCell>,
}

impl View for TableEntry {
    type V = Seq<CellV>;

    open spec fn view(&self) -> Seq<CellV> {
        self.col_data.deep_view()
    }
}

impl DeepView for TableEntry {
    type V = Seq<CellV>;

    open spec fn deep_view(&self) -> Seq<CellV> {
        self.view()
    }
}

impl Clone for TableEntry {
    /// A cloned row holds the same cell values.
    fn clone(&self) -> (r: TableEntry)
        ensures
            r@ == self@,
    {
        let r = TableEntry { col_data: self.col_data.clone() };
        proof {
            assert(r@ =~= self@);
        }
        r
    }
}

/// A row conforms to a schema: same length, matching variant per slot.
pub open spec fn row_matches(cols: Seq<ColV>, r: Seq<CellV>) -> bool {
    &&& r.len() == cols.len()
    &&& forall|j: int| 0 <= j < r.len() ==> tag_matches(cols[j].ty, #[trigger] r[j])
}

/// Every type tag of the schema is bare.
pub open spec fn schema_bare(cols: Seq<ColV>) -> bool {
    forall|i: int| 0 <= i < cols.len() ==> is_bare_tag(#[trigger] cols[i].ty)
}

/// Every row conforms to the schema.
pub open spec fn rows_conform(cols: Seq<ColV>, rows: Seq<Seq<CellV>>) -> bool {
    forall|i: int| 0 <= i < rows.len() ==> row_matches(cols, #[trigger] rows[i])
}

/// A table: ordered schema, ordered rows, optionally a name.
#[derive(Debug)]
pub struct Table {
    pub name: Option<String>,
    pub col_names: Vec<ColumnEntry>,
    pub all: Vec<TableEntry>,
}

/// The mathematical value of a table.
pub struct TableV {
    pub name: Option<Seq<char>>,
    pub cols: Seq<ColV>,
    pub rows: Seq<Seq<CellV>>,
}

impl View for Table {
    type V = TableV;

    open spec fn view(&self) -> TableV {
        TableV {
            name: self.name.deep_view(),
            cols: self.col_names.deep_view(),
            rows: self.all.deep_view(),
        }
    }
}

impl Table {
    /// Well-formed: type tags are bare and every row conforms to the
    /// schema.
    pub open spec fn wf(&self) -> bool {
        schema_bare(self@.cols) && rows_conform(self@.cols, self@.rows)
    }
}

impl Default for Table {
    /// An empty, unnamed table.
    fn default() -> (t: Table)
        ensures
            t@.name is None,
            t@.cols.len() == 0,
            t@.rows.len() == 0,
            t.wf(),
    {
        Table { name: None, col_names: Vec::new(), all: Vec::new() }
    }
}

impl Clone for Table {
    /// A cloned table has the same name, schema and rows.
    fn clone(&self) -> (r: Table)
        ensures
            r@ == self@,
    {
        let r = Table {
            name: match &self.name {
                Some(n) => Some(n.clone()),
                None => None,
            },
            col_names: self.col_names.clone(),
            all: self.all.clone(),
        };
        proof {
            assert(r@.cols =~= self@.cols);
            assert(r@.rows =~= self@.rows);
        }
        r
    }
}

impl Table {
    /// The table's name, if it has one.
    pub fn get_name(&self) -> (r: Option<&str>)
        ensures
            match r {
                Some(s) => self@.name == Some(s@),
                None => self@.name is None,
            },
    {
        match &self.name {
            Some(n) => Some(n.as_str()),
            None => None,
        }
    }

    /// A copy of the schema; an in-memory read never fails.
    pub fn get_cols(&self) -> (r: Result<Vec<ColumnEntry>, TableLikeError>)
        ensures
            r matches Ok(cs) && cs.deep_view() == self@.cols,
    {
        let cs = self.col_names.clone();
        proof {
            assert(cs.deep_view() =~= self@.cols);
        }
        Ok(cs)
    }

    /// A copy of the rows, in order; an in-memory read never fails.
    pub fn get_rows(&self) -> (r: Vec<TableEntry>)
        ensures
            r.deep_view() == self@.rows,
    {
        let rs = self.all.clone();
        proof {
            assert(rs.deep_view() =~= self@.rows);
        }
        rs
    }

    /// Appends the given rows as they are.  No validation happens
    /// here: type and arity against the schema are the caller's
    /// responsibility.
    pub fn add_rows(&mut self, rows: Vec<TableEntry>) -> (r: Result<(), TableLikeError>)
        ensures
            r is Ok,
            final(self)@.rows == old(self)@.rows + rows.deep_view(),
            final(self)@.cols == old(self)@.cols,
            final(self)@.name == old(self)@.name,
    {
        let ghost given = rows.deep_view();
        let mut moved = rows;
        self.all.append(&mut moved);
        proof {
            assert(self.all.deep_view() =~= old(self)@.rows + given);
        }
        Ok(())
    }

    /// Clears this table, copies the source's schema, then copies its
    /// rows one at a time, counting; once the count would pass the
    /// memory limit the flush fails and leaves the destination with
    /// the new schema and no rows, not the old contents.
    pub fn flush(&mut self, t: &Table) -> (r: Result<(), TableLikeError>)
        ensures
            final(self)@.name == old(self)@.name,
            final(self)@.cols == t@.cols,
            t@.rows.len() <= MAX_MEM_LIM ==> r is Ok && final(self)@.rows == t@.rows,
            t@.rows.len() > MAX_MEM_LIM ==> r == Err::<(), TableLikeError>(
                TableLikeError::CapacityExceeded,
            ) && final(self)@.rows.len() == 0,
    {
        self.col_names.clear();
        let mut cols = t.col_names.clone();
        let ghost colsv = cols.deep_view();
        proof {
            assert(colsv =~= t@.cols);
        }
        self.col_names.append(&mut cols);
        proof {
            assert(self.col_names.deep_view() =~= colsv);
        }
        self.all.clear();
        let n = t.all.len();
        let mut i: usize = 0;
        proof {
            assert(self.all.deep_view() =~= t@.rows.take(0));
        }
        while i < n
            invariant
                i <= n,
                n == t.all.len(),
                i <= MAX_MEM_LIM,
                self.all.deep_view() == t@.rows.take(i as int),
                self.col_names.deep_view() == t@.cols,
                self.name == old(self).name,
            decreases n - i,
        {
            if i >= MAX_MEM_LIM {
                self.all.clear();
                proof {
                    assert(self.all.deep_view() =~= Seq::<Seq<CellV>>::empty());
                }
                return Err(TableLikeError::CapacityExceeded);
            }
            let row = t.all[i].clone();
            self.all.push(row);
            proof {
                assert(self.all.deep_view() =~= t@.rows.take(i + 1));
            }
            i = i + 1;
        }
        proof {
            assert(t@.rows.take(n as int) =~= t@.rows);
        }
        Ok(())
    }

    /// Memory-to-memory conversion is a refused no-op, not a copy.
    pub fn move_to_memory(&mut self) -> (r: Result<Table, TableLikeError>)
        ensures
            r is Err,
            r == Err::<Table, TableLikeError>(TableLikeError::Other),
            final(self)@ == old(self)@,
    {
        Err(TableLikeError::new("already a memory table"))
    }
}

} // verus!
