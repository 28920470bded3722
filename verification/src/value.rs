//! The columnar value model: typed values, named columns, and the
//! data block that every other part of the engine moves around.

use vstd::prelude::*;
use vstd::string::StrSliceExecFns;
use vstd::string::StringExecFns;

use crate::error::EngineError;
use crate::error::ErrorKind;
use crate::strutil::str_eq;

verus! {

/// The base kind of a column's type.
#[derive(Clone, Copy, Debug, PartialEq, Eq, Hash, Structural)]
pub enum TypeID {
    Boolean,
    UInt64,
    Int64,
    Utf8,
    /// Raw bytes, as the engine's string columns store them.
    Bytes,
    /// A semi-structured object; carried opaquely by the core.
    VariantObject,
}

/// The declared type of a column: a base kind, and whether the column
/// may hold nulls beside plain values.
#[derive(Clone, Copy, Debug, PartialEq, Eq, Hash, Structural)]
pub struct DataType {
    pub id: TypeID,
    pub nullable: bool,
}

impl DataType {
    pub fn new(id: TypeID, nullable: bool) -> (r: DataType)
        ensures
            r.id == id,
            r.nullable == nullable,
    {
        DataType { id, nullable }
    }
}

/// A single cell of a column.
#[derive(Clone, Debug)]
pub enum Value {
    Null,
    Boolean(bool),
    UInt64(u64),
    Int64(i64),
    Utf8(String),
    Bytes(Vec<u8>),
}

/// The mathematical shadow of a [`Value`]: strings become character
/// sequences so that contracts can speak of their contents.
pub enum ValueView {
    Null,
    Boolean(bool),
    UInt64(u64),
    Int64(i64),
    Utf8(Seq<char>),
    Bytes(Seq<u8>),
}

impl View for Value {
    type V = ValueView;

    open spec fn view(&self) -> ValueView {
        match self {
            Value::Null => ValueView::Null,
            Value::Boolean(b) => ValueView::Boolean(*b),
            Value::UInt64(v) => ValueView::UInt64(*v),
            Value::Int64(v) => ValueView::Int64(*v),
            Value::Utf8(s) => ValueView::Utf8(s@),
            Value::Bytes(b) => ValueView::Bytes(b@),
        }
    }
}

impl DeepView for Value {
    type V = ValueView;

    open spec fn deep_view(&self) -> ValueView {
        self@
    }
}

impl Value {
    /// Decide equality of two cells; null equals only null.
    pub fn equals(&self, other: &Value) -> (r: bool)
        ensures
            r == (self@ == other@),
    {
        match (self, other) {
            (Value::Null, Value::Null) => true,
            (Value::Boolean(a), Value::Boolean(b)) => *a == *b,
            (Value::UInt64(a), Value::UInt64(b)) => *a == *b,
            (Value::Int64(a), Value::Int64(b)) => *a == *b,
            (Value::Utf8(a), Value::Utf8(b)) => str_eq(a.as_str(), b.as_str()),
            (Value::Bytes(a), Value::Bytes(b)) => bytes_eq(a, b),
            _ => false,
        }
    }

    pub fn is_null(&self) -> (r: bool)
        ensures
            r == (self@ is Null),
    {
        matches!(self, Value::Null)
    }
}

/// A named, typed vector of cells.
#[derive(Clone, Debug)]
pub struct Column {
    pub name: String,
    pub data_type: DataType,
    pub values: Vec<Value>,
}

/// The mathematical shadow of a [`Column`].
pub struct ColumnView {
    pub name: Seq<char>,
    pub data_type: DataType,
    pub values: Seq<ValueView>,
}

impl View for Column {
    type V = ColumnView;

    open spec fn view(&self) -> ColumnView {
        ColumnView { name: self.name@, data_type: self.data_type, values: self.values.deep_view() }
    }
}

impl DeepView for Column {
    type V = ColumnView;

    open spec fn deep_view(&self) -> ColumnView {
        self@
    }
}

impl Column {
    pub fn new(name: String, data_type: DataType, values: Vec<Value>) -> (r: Column)
        ensures
            r@.name == name@,
            r@.data_type == data_type,
            r@.values == values.deep_view(),
    {
        Column { name, data_type, values }
    }

    pub fn len(&self) -> (r: usize)
        ensures
            r == self@.values.len(),
    {
        self.values.len()
    }
}

/// An ordered sequence of named columns, all of one row count.
#[derive(Clone, Debug)]
pub struct DataBlock {
    pub columns: Vec<Column>,
}

impl View for DataBlock {
    type V = Seq<ColumnView>;

    open spec fn view(&self) -> Seq<ColumnView> {
        self.columns.deep_view()
    }
}

/// Every column of the block holds the same number of rows.
pub open spec fn block_wf(b: Seq<ColumnView>) -> bool {
    forall|i: int| 0 <= i < b.len() ==> #[trigger] b[i].values.len() == block_rows(b)
}

/// The row count of a block: that of its first column, or zero.
pub open spec fn block_rows(b: Seq<ColumnView>) -> nat {
    if b.len() == 0 {
        0
    } else {
        b[0].values.len()
    }
}

/// The position of the first column with the given name, if any.
pub open spec fn find_column(b: Seq<ColumnView>, name: Seq<char>) -> Option<int>
    decreases b.len(),
{
    if b.len() == 0 {
        Option::None
    } else if b[0].name == name {
        Option::Some(0)
    } else {
        match find_column(b.drop_first(), name) {
            Option::Some(i) => Option::Some(i + 1),
            Option::None => Option::None,
        }
    }
}

impl DataBlock {
    pub open spec fn wf(&self) -> bool {
        block_wf(self@)
    }

    pub open spec fn rows(&self) -> nat {
        block_rows(self@)
    }

    /// A block of no columns and no rows.
    pub fn empty() -> (r: DataBlock)
        ensures
            r@ == Seq::<ColumnView>::empty(),
            r.wf(),
    {
        let b = DataBlock { columns: Vec::new() };
        proof {
            assert(b@ =~= Seq::<ColumnView>::empty());
        }
        b
    }

    pub fn create(columns: Vec<Column>) -> (r: Result<DataBlock, EngineError>)
        ensures
            match r {
                Ok(b) => b@ == columns.deep_view() && b.wf(),
                Err(e) => e.kind == ErrorKind::BadArguments && !block_wf(columns.deep_view()),
            },
    {
        let rows = if columns.len() == 0 {
            0
        } else {
            columns[0].values.len()
        };
        proof {
            if columns.len() > 0 {
                assert(columns.deep_view()[0] == columns[0]@);
            }
        }
        let mut i: usize = 0;
        while i < columns.len()
            invariant
                0 <= i <= columns.len(),
                rows == block_rows(columns.deep_view()),
                forall|j: int|
                    0 <= j < i ==> #[trigger] columns.deep_view()[j].values.len() == rows,
            decreases columns.len() - i,
        {
            if columns[i].values.len() != rows {
                proof {
                    assert(columns.deep_view()[i as int] == columns[i as int]@);
                    assert(columns.deep_view()[i as int].values.len() != block_rows(
                        columns.deep_view(),
                    ));
                    assert(!block_wf(columns.deep_view()));
                }
                return Err(EngineError::bad_arguments(String::from_str(
                    "columns differ in row count",
                )));
            }
            proof {
                assert(columns.deep_view()[i as int] == columns[i as int]@);
            }
            i += 1;
        }
        Ok(DataBlock { columns })
    }

    pub fn num_columns(&self) -> (r: usize)
        ensures
            r == self@.len(),
    {
        self.columns.len()
    }

    pub fn num_rows(&self) -> (r: usize)
        ensures
            r == self.rows(),
    {
        if self.columns.len() == 0 {
            0
        } else {
            self.columns[0].values.len()
        }
    }

    pub fn get_by_offset(&self, offset: usize) -> (r: &Column)
        requires
            offset < self@.len(),
        ensures
            r@ == self@[offset as int],
    {
        &self.columns[offset]
    }

    /// Find the first column with the given name, or report the name
    /// as unknown.
    pub fn try_column_by_name(&self, name: &str) -> (r: Result<&Column, EngineError>)
        ensures
            match r {
                Ok(c) => find_column(self@, name@) is Some && c@ == self@[find_column(
                    self@,
                    name@,
                ).unwrap()],
                Err(e) => e.kind == ErrorKind::UnknownColumn && find_column(self@, name@) is None,
            },
    {
        let n = self.columns.len();
        let mut i: usize = 0;
        while i < n
            invariant
                0 <= i <= n,
                n == self@.len(),
                forall|j: int| 0 <= j < i ==> #[trigger] self@[j].name != name@,
            decreases n - i,
        {
            if str_eq(self.columns[i].name.as_str(), name) {
                proof {
                    lemma_find_column_first(self@, name@, i as int);
                }
                return Ok(&self.columns[i]);
            }
            i += 1;
        }
        proof {
            lemma_find_column_none(self@, name@);
        }
        Err(EngineError::unknown_column(String::from_str("column not found")))
    }
}

/// The block that `take` builds: every column keeps its name and type,
/// and its cells are the listed rows in the listed order.
pub open spec fn take_view(b: Seq<ColumnView>, idx: Seq<u32>) -> Seq<ColumnView> {
    Seq::new(
        b.len(),
        |k: int|
            ColumnView {
                name: b[k].name,
                data_type: b[k].data_type,
                values: Seq::new(idx.len(), |j: int| b[k].values[idx[j] as int]),
            },
    )
}

/// The row numbers, in order, at which the predicate column holds `true`.
pub open spec fn kept_rows(pred: Seq<ValueView>) -> Seq<u32>
    decreases pred.len(),
{
    if pred.len() == 0 {
        Seq::empty()
    } else {
        let init = kept_rows(pred.drop_last());
        if pred.last() == ValueView::Boolean(true) {
            init.push((pred.len() - 1) as u32)
        } else {
            init
        }
    }
}

/// The bytes a single cell accounts for in a block's memory size.
pub open spec fn value_bytes(v: ValueView) -> nat {
    match v {
        ValueView::Null => 0,
        ValueView::Boolean(_) => 1,
        ValueView::UInt64(_) => 8,
        ValueView::Int64(_) => 8,
        ValueView::Utf8(s) => s.len(),
        ValueView::Bytes(b) => b.len(),
    }
}

/// The bytes a column accounts for: the sum over its cells.
pub open spec fn column_bytes(values: Seq<ValueView>) -> nat
    decreases values.len(),
{
    if values.len() == 0 {
        0
    } else {
        column_bytes(values.drop_last()) + value_bytes(values.last())
    }
}

/// The bytes a block accounts for: the sum over its columns.
pub open spec fn block_bytes(b: Seq<ColumnView>) -> nat
    decreases b.len(),
{
    if b.len() == 0 {
        0
    } else {
        block_bytes(b.drop_last()) + column_bytes(b.last().values)
    }
}

impl DataBlock {
    /// Build a new block holding, from every column, the listed rows in
    /// the listed order. Rejects any row number at or past the row count.
    pub fn block_take_by_indices(block: &DataBlock, indices: &Vec<u32>) -> (r: Result<
        DataBlock,
        EngineError,
    >)
        requires
            block.wf(),
        ensures
            match r {
                Ok(nb) => {
                    &&& forall|j: int| 0 <= j < indices@.len() ==> (indices@[j] as nat)
                        < block.rows()
                    &&& nb@ == take_view(block@, indices@)
                    &&& nb.wf()
                },
                Err(e) => {
                    &&& e.kind == ErrorKind::BadArguments
                    &&& exists|j: int|
                        0 <= j < indices@.len() && (indices@[j] as nat) >= block.rows()
                },
            },
    {
        let rows = block.num_rows();
        let mut j: usize = 0;
        while j < indices.len()
            invariant
                0 <= j <= indices@.len(),
                rows == block.rows(),
                forall|t: int| 0 <= t < j ==> (indices@[t] as nat) < block.rows(),
            decreases indices@.len() - j,
        {
            if indices[j] as usize >= rows {
                return Err(EngineError::bad_arguments(String::from_str(
                    "row index out of range",
                )));
            }
            j += 1;
        }
        let mut new_columns: Vec<Column> = Vec::new();
        let mut k: usize = 0;
        while k < block.columns.len()
            invariant
                0 <= k <= block@.len(),
                block.wf(),
                forall|t: int| 0 <= t < indices@.len() ==> (indices@[t] as nat) < block.rows(),
                new_columns@.len() == k,
                forall|t: int|
                    0 <= t < k ==> (#[trigger] new_columns@[t])@ == take_view(block@, indices@)[t],
            decreases block@.len() - k,
        {
            let src = &block.columns[k];
            proof {
                assert(block@[k as int] == block.columns[k as int]@);
            }
            let mut vals: Vec<Value> = Vec::new();
            let mut j2: usize = 0;
            while j2 < indices.len()
                invariant
                    0 <= j2 <= indices@.len(),
                    block.wf(),
                    0 <= k < block@.len(),
                    src@ == block@[k as int],
                    forall|t: int| 0 <= t < indices@.len() ==> (indices@[t] as nat) < block.rows(),
                    vals@.len() == j2,
                    forall|t: int|
                        0 <= t < j2 ==> (#[trigger] vals@[t])@ == block@[k as int].values[indices@[t] as int],
                decreases indices@.len() - j2,
            {
                let row: usize = indices[j2] as usize;
                proof {
                    assert(block@[k as int].values.len() == block.rows());
                }
                let cell = src.values[row].clone_value();
                proof {
                    assert(src.values.deep_view()[row as int] == src.values@[row as int]@);
                    assert(cell@ == block@[k as int].values[indices@[j2 as int] as int]);
                }
                vals.push(cell);
                j2 += 1;
            }
            let name_copy = clone_string(&src.name);
            new_columns.push(Column { name: name_copy, data_type: src.data_type, values: vals });
            proof {
                assert(new_columns@[k as int]@.values =~= take_view(
                    block@,
                    indices@,
                )[k as int].values);
                assert(new_columns@[k as int]@ =~= take_view(block@, indices@)[k as int]);
            }
            k += 1;
        }
        let nb = DataBlock { columns: new_columns };
        proof {
            assert forall|t: int| 0 <= t < nb@.len() implies #[trigger] nb@[t] == take_view(
                block@,
                indices@,
            )[t] by {
                assert(nb@[t] == new_columns@[t]@);
            }
            assert(nb@ =~= take_view(block@, indices@));
            if nb@.len() > 0 {
                assert(nb@[0].values.len() == indices@.len());
            }
            assert(block_wf(nb@));
        }
        Ok(nb)
    }
}

impl DataBlock {
    /// Append a column; rejected when its row count differs from the
    /// block's (a block of no columns accepts any column).
    pub fn add_column(&mut self, column: Column) -> (r: Result<(), EngineError>)
        requires
            old(self).wf(),
        ensures
            match r {
                Ok(()) => {
                    &&& (old(self)@.len() == 0 || column@.values.len() == old(self).rows())
                    &&& final(self)@ == old(self)@.push(column@)
                    &&& final(self).wf()
                },
                Err(e) => {
                    &&& e.kind == ErrorKind::BadArguments
                    &&& old(self)@.len() > 0
                    &&& column@.values.len() != old(self).rows()
                    &&& final(self)@ == old(self)@
                },
            },
    {
        if self.columns.len() > 0 && column.values.len() != self.num_rows() {
            return Err(EngineError::bad_arguments(String::from_str(
                "column row count differs from block",
            )));
        }
        self.columns.push(column);
        proof {
            assert(self@ =~= old(self)@.push(self.columns@.last()@));
        }
        Ok(())
    }

    /// The rows `offset..offset + length` of every column; the range is
    /// clipped to the block's row count.
    pub fn slice(&self, offset: usize, length: usize) -> (r: DataBlock)
        requires
            self.wf(),
        ensures
            r@.len() == self@.len(),
            r.wf(),
            forall|k: int|
                0 <= k < self@.len() ==> {
                    let lo = if offset as nat <= self.rows() {
                        offset as nat
                    } else {
                        self.rows()
                    };
                    let hi = if (offset + length) as nat <= self.rows() {
                        (offset + length) as nat
                    } else {
                        self.rows()
                    };
                    &&& (#[trigger] r@[k]).name == self@[k].name
                    &&& r@[k].data_type == self@[k].data_type
                    &&& r@[k].values == self@[k].values.subrange(lo as int, hi as int)
                },
    {
        let rows = self.num_rows();
        let lo: usize = if offset <= rows {
            offset
        } else {
            rows
        };
        let hi: usize = if length <= rows - lo {
            lo + length
        } else {
            rows
        };
        let mut new_columns: Vec<Column> = Vec::new();
        let mut k: usize = 0;
        while k < self.columns.len()
            invariant
                0 <= k <= self@.len(),
                self.wf(),
                lo <= hi <= self.rows(),
                lo == if offset as nat <= self.rows() {
                    offset as nat
                } else {
                    self.rows()
                },
                hi == if (offset + length) as nat <= self.rows() {
                    (offset + length) as nat
                } else {
                    self.rows()
                },
                new_columns@.len() == k,
                forall|t: int|
                    0 <= t < k ==> {
                        &&& (#[trigger] new_columns@[t])@.name == self@[t].name
                        &&& new_columns@[t]@.data_type == self@[t].data_type
                        &&& new_columns@[t]@.values == self@[t].values.subrange(
                            lo as int,
                            hi as int,
                        )
                    },
            decreases self@.len() - k,
        {
            let src = &self.columns[k];
            proof {
                assert(self@[k as int] == self.columns@[k as int]@);
                assert(self@[k as int].values.len() == self.rows());
            }
            let mut vals: Vec<Value> = Vec::new();
            let mut j: usize = lo;
            while j < hi
                invariant
                    lo <= j <= hi,
                    hi <= src@.values.len(),
                    vals@.len() == j - lo,
                    forall|t: int|
                        0 <= t < j - lo ==> (#[trigger] vals@[t])@ == src@.values[lo + t],
                decreases hi - j,
            {
                let cell = src.values[j].clone_value();
                proof {
                    assert(src.values.deep_view()[j as int] == src.values@[j as int]@);
                }
                vals.push(cell);
                j += 1;
            }
            let name_copy = clone_string(&src.name);
            new_columns.push(Column { name: name_copy, data_type: src.data_type, values: vals });
            proof {
                assert(new_columns@[k as int]@.values =~= self@[k as int].values.subrange(
                    lo as int,
                    hi as int,
                ));
            }
            k += 1;
        }
        let nb = DataBlock { columns: new_columns };
        proof {
            assert forall|t: int| 0 <= t < nb@.len() implies #[trigger] nb@[t]
                == new_columns@[t]@ by {}
            if nb@.len() > 0 {
                assert(nb@[0].values.len() == hi - lo);
                assert forall|t: int| 0 <= t < nb@.len() implies #[trigger] nb@[t].values.len()
                    == block_rows(nb@) by {}
            }
            assert(block_wf(nb@));
        }
        nb
    }

    /// Keep the rows at which the boolean predicate column holds `true`;
    /// a null or `false` cell drops the row. The predicate must be as
    /// long as the block, which must not have more rows than `u32` can
    /// index.
    pub fn filter(&self, predicate: &Column) -> (r: Result<DataBlock, EngineError>)
        requires
            self.wf(),
            self.rows() <= u32::MAX,
        ensures
            match r {
                Ok(nb) => {
                    &&& predicate@.values.len() == self.rows()
                    &&& nb@ == take_view(self@, kept_rows(predicate@.values))
                    &&& nb.wf()
                },
                Err(e) => {
                    &&& e.kind == ErrorKind::BadArguments
                    &&& predicate@.values.len() != self.rows()
                },
            },
    {
        if predicate.values.len() != self.num_rows() {
            return Err(EngineError::bad_arguments(String::from_str(
                "predicate row count differs from block",
            )));
        }
        let mut kept: Vec<u32> = Vec::new();
        let mut j: usize = 0;
        while j < predicate.values.len()
            invariant
                0 <= j <= predicate@.values.len(),
                predicate@.values.len() == self.rows() <= u32::MAX,
                kept@ == kept_rows(predicate@.values.subrange(0, j as int)),
            decreases predicate@.values.len() - j,
        {
            proof {
                assert(predicate.values.deep_view()[j as int] == predicate.values@[j as int]@);
                assert(predicate@.values.subrange(0, j + 1).drop_last() =~= predicate@.values.subrange(
                    0,
                    j as int,
                ));
            }
            let keep = matches!(&predicate.values[j], Value::Boolean(true));
            if keep {
                kept.push(j as u32);
            }
            j += 1;
        }
        proof {
            assert(predicate@.values.subrange(0, predicate@.values.len() as int)
                =~= predicate@.values);
        }
        proof {
            lemma_kept_rows_in_range(predicate@.values);
        }
        DataBlock::block_take_by_indices(self, &kept)
    }

    /// Permute the block's columns to the order of the target names;
    /// an absent name is reported as unknown.
    pub fn resort(&self, target: &Vec<String>) -> (r: Result<DataBlock, EngineError>)
        requires
            self.wf(),
        ensures
            match r {
                Ok(nb) => {
                    &&& forall|i: int|
                        0 <= i < target@.len() ==> #[trigger] find_column(
                            self@,
                            target@[i]@,
                        ) is Some
                    &&& nb@.len() == target@.len()
                    &&& forall|i: int|
                        0 <= i < target@.len() ==> #[trigger] nb@[i] == self@[find_column(
                            self@,
                            target@[i]@,
                        ).unwrap()]
                },
                Err(e) => {
                    &&& e.kind == ErrorKind::UnknownColumn
                    &&& exists|i: int|
                        0 <= i < target@.len() && #[trigger] find_column(
                            self@,
                            target@[i]@,
                        ) is None
                },
            },
    {
        let mut new_columns: Vec<Column> = Vec::new();
        let mut i: usize = 0;
        while i < target.len()
            invariant
                0 <= i <= target@.len(),
                self.wf(),
                new_columns@.len() == i,
                forall|t: int|
                    0 <= t < i ==> #[trigger] find_column(self@, target@[t]@) is Some,
                forall|t: int|
                    0 <= t < i ==> (#[trigger] new_columns@[t])@ == self@[find_column(
                        self@,
                        target@[t]@,
                    ).unwrap()],
            decreases target@.len() - i,
        {
            let found = self.try_column_by_name(target[i].as_str());
            match found {
                Ok(c) => {
                    new_columns.push(c.clone_column());
                }
                Err(_) => {
                    return Err(EngineError::unknown_column(String::from_str(
                        "column not found",
                    )));
                }
            }
            i += 1;
        }
        let nb = DataBlock { columns: new_columns };
        proof {
            assert forall|t: int| 0 <= t < nb@.len() implies #[trigger] nb@[t]
                == new_columns@[t]@ by {}
        }
        Ok(nb)
    }

    /// The bytes the block's cells account for, clipped at the machine's
    /// largest size.
    pub fn memory_size(&self) -> (r: usize)
        ensures
            r == if block_bytes(self@) <= usize::MAX {
                block_bytes(self@)
            } else {
                usize::MAX as nat
            },
    {
        let mut total: usize = 0;
        let mut k: usize = 0;
        while k < self.columns.len()
            invariant
                0 <= k <= self@.len(),
                total == if block_bytes(self@.subrange(0, k as int)) <= usize::MAX {
                    block_bytes(self@.subrange(0, k as int))
                } else {
                    usize::MAX as nat
                },
            decreases self@.len() - k,
        {
            let col = &self.columns[k];
            proof {
                assert(self@[k as int] == self.columns@[k as int]@);
            }
            let mut col_total: usize = 0;
            let mut j: usize = 0;
            while j < col.values.len()
                invariant
                    0 <= j <= col@.values.len(),
                    col_total == if column_bytes(col@.values.subrange(0, j as int)) <= usize::MAX {
                        column_bytes(col@.values.subrange(0, j as int))
                    } else {
                        usize::MAX as nat
                    },
                decreases col@.values.len() - j,
            {
                proof {
                    assert(col.values.deep_view()[j as int] == col.values@[j as int]@);
                    assert(col@.values.subrange(0, j + 1).drop_last() =~= col@.values.subrange(
                        0,
                        j as int,
                    ));
                }
                let cell_bytes: usize = match &col.values[j] {
                    Value::Null => 0,
                    Value::Boolean(_) => 1,
                    Value::UInt64(_) => 8,
                    Value::Int64(_) => 8,
                    Value::Utf8(s) => s.as_str().unicode_len(),
                    Value::Bytes(b) => b.len(),
                };
                col_total = saturating_add_usize(col_total, cell_bytes);
                j += 1;
            }
            proof {
                assert(col@.values.subrange(0, col@.values.len() as int) =~= col@.values);
                assert(self@.subrange(0, k + 1).drop_last() =~= self@.subrange(0, k as int));
                assert(self@.subrange(0, k + 1).last() == self@[k as int]);
            }
            total = saturating_add_usize(total, col_total);
            k += 1;
        }
        proof {
            assert(self@.subrange(0, self@.len() as int) =~= self@);
        }
        total
    }
}

impl Column {
    /// Copy this column; the copy carries the same view.
    pub fn clone_column(&self) -> (r: Column)
        ensures
            r@ == self@,
    {
        let mut vals: Vec<Value> = Vec::new();
        let mut j: usize = 0;
        while j < self.values.len()
            invariant
                0 <= j <= self@.values.len(),
                vals@.len() == j,
                forall|t: int| 0 <= t < j ==> (#[trigger] vals@[t])@ == self@.values[t],
            decreases self@.values.len() - j,
        {
            proof {
                assert(self.values.deep_view()[j as int] == self.values@[j as int]@);
            }
            vals.push(self.values[j].clone_value());
            j += 1;
        }
        let c = Column {
            name: clone_string(&self.name),
            data_type: self.data_type,
            values: vals,
        };
        proof {
            assert(c@.values =~= self@.values);
        }
        c
    }
}

/// Add, clipping the sum at the machine's largest size.
pub fn saturating_add_usize(a: usize, b: usize) -> (r: usize)
    ensures
        r == if a + b <= usize::MAX {
            a + b
        } else {
            usize::MAX as int
        },
{
    if a <= usize::MAX - b {
        a + b
    } else {
        usize::MAX
    }
}

/// Every row number that `kept_rows` lists lies below the predicate's
/// length.
pub proof fn lemma_kept_rows_in_range(pred: Seq<ValueView>)
    ensures
        forall|j: int|
            0 <= j < kept_rows(pred).len() ==> (#[trigger] kept_rows(pred)[j] as nat) < pred.len(),
    decreases pred.len(),
{
    if pred.len() > 0 {
        lemma_kept_rows_in_range(pred.drop_last());
        let init = kept_rows(pred.drop_last());
        assert forall|j: int| 0 <= j < kept_rows(pred).len() implies (#[trigger] kept_rows(
            pred,
        )[j] as nat) < pred.len() by {
            if j < init.len() {
                assert(kept_rows(pred)[j] == init[j]);
                assert((init[j] as nat) < pred.drop_last().len());
            }
        }
    }
}

/// Copy a cell; the copy carries the same view.
pub fn clone_value(v: &Value) -> (r: Value)
    ensures
        r@ == v@,
{
    match v {
        Value::Null => Value::Null,
        Value::Boolean(b) => Value::Boolean(*b),
        Value::UInt64(x) => Value::UInt64(*x),
        Value::Int64(x) => Value::Int64(*x),
        Value::Utf8(s) => Value::Utf8(clone_string(s)),
        Value::Bytes(b) => Value::Bytes(clone_bytes(b)),
    }
}

/// Copy a byte vector together with its view.
pub fn clone_bytes(b: &Vec<u8>) -> (r: Vec<u8>)
    ensures
        r@ == b@,
{
    let mut r: Vec<u8> = Vec::new();
    let mut j: usize = 0;
    while j < b.len()
        invariant
            0 <= j <= b@.len(),
            r@ == b@.subrange(0, j as int),
        decreases b@.len() - j,
    {
        r.push(b[j]);
        proof {
            assert(r@ =~= b@.subrange(0, j + 1));
        }
        j += 1;
    }
    proof {
        assert(b@.subrange(0, b@.len() as int) =~= b@);
    }
    r
}

/// Decide equality of two byte vectors.
pub fn bytes_eq(a: &Vec<u8>, b: &Vec<u8>) -> (r: bool)
    ensures
        r == (a@ == b@),
{
    if a.len() != b.len() {
        proof {
            assert(a@.len() != b@.len());
        }
        return false;
    }
    let mut j: usize = 0;
    while j < a.len()
        invariant
            0 <= j <= a@.len(),
            a@.len() == b@.len(),
            forall|t: int| 0 <= t < j ==> a@[t] == b@[t],
        decreases a@.len() - j,
    {
        if a[j] != b[j] {
            return false;
        }
        j += 1;
    }
    proof {
        assert(a@ =~= b@);
    }
    true
}

impl Value {
    /// Copy this cell; the copy carries the same view.
    pub fn clone_value(&self) -> (r: Value)
        ensures
            r@ == self@,
    {
        clone_value(self)
    }
}

/// Copy a string together with its view.
pub fn clone_string(s: &String) -> (r: String)
    ensures
        r@ == s@,
{
    String::from_str(s.as_str())
}

impl DataBlock {
    /// The offset of the first column with the given name, or the name
    /// reported as unknown.
    pub fn column_offset_by_name(&self, name: &str) -> (r: Result<usize, EngineError>)
        ensures
            match r {
                Ok(o) => find_column(self@, name@) == Option::Some(o as int),
                Err(e) => e.kind == ErrorKind::UnknownColumn && find_column(self@, name@) is None,
            },
    {
        let n = self.columns.len();
        let mut i: usize = 0;
        while i < n
            invariant
                0 <= i <= n,
                n == self@.len(),
                forall|j: int| 0 <= j < i ==> #[trigger] self@[j].name != name@,
            decreases n - i,
        {
            if str_eq(self.columns[i].name.as_str(), name) {
                proof {
                    assert(self@[i as int] == self.columns@[i as int]@);
                    lemma_find_column_first(self@, name@, i as int);
                }
                return Ok(i);
            }
            proof {
                assert(self@[i as int] == self.columns@[i as int]@);
            }
            i += 1;
        }
        proof {
            lemma_find_column_none(self@, name@);
        }
        Err(EngineError::unknown_column(String::from_str("column not found")))
    }
}

/// If position `i` holds the first column named `name`, the search
/// finds exactly `i`.
proof fn lemma_find_column_first(b: Seq<ColumnView>, name: Seq<char>, i: int)
    requires
        0 <= i < b.len(),
        b[i].name == name,
        forall|j: int| 0 <= j < i ==> #[trigger] b[j].name != name,
    ensures
        find_column(b, name) == Option::Some(i),
    decreases i,
{
    if i == 0 {
    } else {
        assert(b.drop_first()[i - 1] == b[i]);
        assert(forall|j: int| 0 <= j < i - 1 ==> #[trigger] b.drop_first()[j] == b[j + 1]);
        lemma_find_column_first(b.drop_first(), name, i - 1);
    }
}

/// If no column bears `name`, the search reports none.
proof fn lemma_find_column_none(b: Seq<ColumnView>, name: Seq<char>)
    requires
        forall|j: int| 0 <= j < b.len() ==> #[trigger] b[j].name != name,
    ensures
        find_column(b, name) is None,
    decreases b.len(),
{
    if b.len() > 0 {
        assert(forall|j: int|
            0 <= j < b.drop_first().len() ==> #[trigger] b.drop_first()[j] == b[j + 1]);
        lemma_find_column_none(b.drop_first(), name);
    }
}

} // verus!
