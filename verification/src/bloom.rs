//! The block-level filter index: one approximate-membership filter per
//! applicable column, built from the digests of a partition's cells,
//! and an evaluator that prunes `column = constant` predicates the
//! filters can refute.

use vstd::prelude::*;
use vstd::string::StringExecFns;

use crate::digest::digest_of;
use crate::digest::digest_value;
use crate::digest::value_digest_bytes;
use crate::error::EngineError;
use crate::error::ErrorKind;
use crate::expr::Expr;
use crate::expr::bool_like;
use crate::expr::eval_row;
use crate::expr::fold_const_exec;
use crate::expr::folds_to_false;
use crate::expr::lemma_fold_agrees;
use crate::strutil::str_eq;
use crate::value::Column;
use crate::value::ColumnView;
use crate::value::block_rows;
use crate::value::DataBlock;
use crate::value::DataType;
use crate::value::TypeID;
use crate::value::Value;
use crate::value::ValueView;
use crate::value::clone_string;
use crate::xor_filter::FilterParts;
use crate::xor_filter::MAX_FILTER_DIGESTS;
use crate::xor_filter::build_filter;
use crate::xor_filter::filter_contains;
use crate::xor_filter::filter_contains_raw;
use crate::xor_filter::filter_encoding;
use crate::xor_filter::xor8_member;
use crate::xor_filter::xor8_member_bytes;

verus! {

/// One field of a table schema.
#[derive(Clone, Debug)]
pub struct TableField {
    pub name: String,
    pub data_type: DataType,
}

/// The spec-level shadow of a field.
pub struct TableFieldView {
    pub name: Seq<char>,
    pub data_type: DataType,
}

impl View for TableField {
    type V = TableFieldView;

    open spec fn view(&self) -> TableFieldView {
        TableFieldView { name: self.name@, data_type: self.data_type }
    }
}

impl DeepView for TableField {
    type V = TableFieldView;

    open spec fn deep_view(&self) -> TableFieldView {
        self@
    }
}

/// An ordered set of named, typed fields.
#[derive(Clone, Debug)]
pub struct TableSchema {
    pub fields: Vec<TableField>,
}

impl View for TableSchema {
    type V = Seq<TableFieldView>;

    open spec fn view(&self) -> Seq<TableFieldView> {
        self.fields.deep_view()
    }
}

/// The position of the first field with the given name, if any.
pub open spec fn find_field(s: Seq<TableFieldView>, name: Seq<char>) -> Option<int>
    decreases s.len(),
{
    if s.len() == 0 {
        Option::None
    } else if s[0].name == name {
        Option::Some(0)
    } else {
        match find_field(s.drop_first(), name) {
            Option::Some(i) => Option::Some(i + 1),
            Option::None => Option::None,
        }
    }
}

/// The engine settings an evaluation runs under; the filter index
/// needs none of them.
#[derive(Clone, Copy, Debug, PartialEq, Eq, Structural)]
pub struct FunctionContext {}

/// A filter's verdict on a predicate: provably false on every row, or
/// nothing learned.
#[derive(Debug, Clone, Copy, PartialEq, Eq, Structural)]
pub enum FilterEvalResult {
    MustFalse,
    Uncertain,
}

/// The current version tag of the filter's stored layout.
pub const FILTER_FORMAT_VERSION: u64 = 3;

/// Layouts at this version probe the filter with the raw encoded
/// value instead of its digest.
pub const LEGACY_FILTER_VERSION: u64 = 2;

/// Whether a column of this type gets a filter.
pub open spec fn spec_supported_type(t: DataType) -> bool {
    t.id == TypeID::UInt64 || t.id == TypeID::Int64 || t.id == TypeID::Utf8 || t.id == TypeID::Bytes
}

/// Whether a column of this type gets a filter: numerics, strings and
/// raw bytes, nullable or not.
pub fn is_supported_type(t: &DataType) -> (r: bool)
    ensures
        r == spec_supported_type(*t),
{
    matches!(t.id, TypeID::UInt64 | TypeID::Int64 | TypeID::Utf8 | TypeID::Bytes)
}

/// The digest a cell contributes at build time: a null contributes 0.
pub open spec fn cell_digest(v: ValueView) -> u64 {
    if v is Null {
        0
    } else {
        digest_of(v)
    }
}

/// Multiple per-column filters for one partition's blocks.
#[derive(Debug)]
pub struct BlockFilter {
    pub func_ctx: FunctionContext,
    /// The schema of the source table the filters work for.
    pub source_schema: TableSchema,
    /// The schema of the filter block: one `Bloom(<column>)` field per
    /// indexed column.
    pub filter_schema: TableSchema,
    pub version: u64,
    /// One row per filter: the serialized filter bytes.
    pub filter_block: DataBlock,
    /// The approximate distinct count per indexed source column.
    pub column_distinct_count: Vec<(usize, usize)>,
}

impl BlockFilter {
    /// The stored shape: the filter block mirrors the filter schema,
    /// one single-celled byte column per field.
    pub open spec fn wf(&self) -> bool {
        &&& self.filter_block@.len() == self.filter_schema@.len()
        &&& forall|i: int|
            0 <= i < self.filter_block@.len() ==> {
                &&& (#[trigger] self.filter_block@[i]).name == self.filter_schema@[i].name
                &&& self.filter_block@[i].values.len() == 1
                &&& self.filter_block@[i].values[0] is Bytes
            }
    }

    /// The serialized filter stored for the source column, if any.
    pub open spec fn stored_filter_bytes(&self, column_name: Seq<char>) -> Option<Seq<u8>> {
        match find_field(self.filter_schema@, spec_filter_column_name(column_name)) {
            Option::Some(i) => match self.filter_block@[i].values[0] {
                ValueView::Bytes(b) => Option::Some(b),
                _ => Option::None,
            },
            Option::None => Option::None,
        }
    }

    /// Whether the stored filter for the column reports the digest as
    /// present. A column without a filter accepts nothing here.
    pub open spec fn accepts(&self, column_name: Seq<char>, dig: u64) -> bool {
        match self.stored_filter_bytes(column_name) {
            Option::Some(bytes) => exists|p: FilterParts|
                #[trigger] p.wf() && bytes == filter_encoding(p.seed, p.block_length, p.finger_prints@)
                    && xor8_member(p.seed, p.block_length, p.finger_prints@, dig),
            Option::None => false,
        }
    }
}

/// The synthetic field name a column's filter is stored under.
pub open spec fn spec_filter_column_name(column_name: Seq<char>) -> Seq<char> {
    "Bloom("@ + column_name + ")"@
}

/// Whether a stored block mirrors a filter schema: one column per
/// field, under the field's name, holding a single byte cell.
pub open spec fn filter_block_matches(schema: Seq<TableFieldView>, block: Seq<ColumnView>) -> bool {
    &&& block.len() == schema.len()
    &&& forall|i: int|
        0 <= i < block.len() ==> {
            &&& (#[trigger] block[i]).name == schema[i].name
            &&& block[i].values.len() == 1
            &&& block[i].values[0] is Bytes
        }
}

impl TableSchema {
    /// The position of the first field with the given name, or the
    /// name reported as unknown.
    pub fn index_of(&self, name: &str) -> (r: Result<usize, EngineError>)
        ensures
            match r {
                Ok(o) => find_field(self@, name@) == Option::Some(o as int),
                Err(e) => e.kind == ErrorKind::UnknownColumn && find_field(self@, name@) is None,
            },
    {
        let n = self.fields.len();
        let mut i: usize = 0;
        while i < n
            invariant
                0 <= i <= n,
                n == self@.len(),
                forall|j: int| 0 <= j < i ==> #[trigger] self@[j].name != name@,
            decreases n - i,
        {
            if str_eq(self.fields[i].name.as_str(), name) {
                proof {
                    assert(self@[i as int] == self.fields@[i as int]@);
                    lemma_find_field_first(self@, name@, i as int);
                }
                return Ok(i);
            }
            proof {
                assert(self@[i as int] == self.fields@[i as int]@);
            }
            i += 1;
        }
        proof {
            lemma_find_field_none(self@, name@);
        }
        Err(EngineError::unknown_column(String::from_str("field not found")))
    }

    /// Whether the schema holds a field of the given name.
    pub fn has_field(&self, name: &str) -> (r: bool)
        ensures
            r == (find_field(self@, name@) is Some),
    {
        match self.index_of(name) {
            Ok(_) => true,
            Err(_) => false,
        }
    }
}

/// If position `i` holds the first field named `name`, the search
/// finds exactly `i`.
pub proof fn lemma_find_field_first(s: Seq<TableFieldView>, name: Seq<char>, i: int)
    requires
        0 <= i < s.len(),
        s[i].name == name,
        forall|j: int| 0 <= j < i ==> #[trigger] s[j].name != name,
    ensures
        find_field(s, name) == Option::Some(i),
    decreases i,
{
    if i == 0 {
    } else {
        assert(s.drop_first()[i - 1] == s[i]);
        assert(forall|j: int| 0 <= j < i - 1 ==> #[trigger] s.drop_first()[j] == s[j + 1]);
        lemma_find_field_first(s.drop_first(), name, i - 1);
    }
}

/// If no field bears `name`, the search reports none.
pub proof fn lemma_find_field_none(s: Seq<TableFieldView>, name: Seq<char>)
    requires
        forall|j: int| 0 <= j < s.len() ==> #[trigger] s[j].name != name,
    ensures
        find_field(s, name) is None,
    decreases s.len(),
{
    if s.len() > 0 {
        assert(forall|j: int|
            0 <= j < s.drop_first().len() ==> #[trigger] s.drop_first()[j] == s[j + 1]);
        lemma_find_field_none(s.drop_first(), name);
    }
}

impl BlockFilter {
    /// The field name a column's filter is stored under.
    pub fn build_filter_column_name(column_name: &str) -> (r: String)
        ensures
            r@ == spec_filter_column_name(column_name@),
    {
        let mut s = String::from_str("Bloom(");
        s.append(column_name);
        s.append(")");
        proof {
            assert(s@ =~= spec_filter_column_name(column_name@));
        }
        s
    }

    /// Load a filter from its stored block. Exactly the blocks that
    /// mirror the filter schema as single-celled byte columns are
    /// accepted; anything else is rejected, where the original stored
    /// whatever it was handed — the probe path here requires the
    /// well-formed shape, so the check moves to the load.
    pub fn from_filter_block(
        func_ctx: FunctionContext,
        source_schema: TableSchema,
        filter_schema: TableSchema,
        filter_block: DataBlock,
        version: u64,
    ) -> (r: Result<BlockFilter, EngineError>)
        ensures
            match r {
                Ok(bf) => {
                    &&& filter_block_matches(filter_schema@, filter_block@)
                    &&& bf.wf()
                    &&& bf.version == version
                    &&& bf.func_ctx == func_ctx
                    &&& bf.source_schema == source_schema
                    &&& bf.filter_schema == filter_schema
                    &&& bf.filter_block == filter_block
                    &&& bf.column_distinct_count@.len() == 0
                },
                Err(e) => {
                    &&& e.kind == ErrorKind::BadArguments
                    &&& !filter_block_matches(filter_schema@, filter_block@)
                },
            },
    {
        if filter_block.columns.len() != filter_schema.fields.len() {
            proof {
                assert(!filter_block_matches(filter_schema@, filter_block@));
            }
            return Err(EngineError::bad_arguments(String::from_str(
                "filter block does not match filter schema",
            )));
        }
        let mut i: usize = 0;
        while i < filter_block.columns.len()
            invariant
                0 <= i <= filter_block@.len(),
                filter_block@.len() == filter_schema@.len(),
                forall|j: int|
                    0 <= j < i ==> {
                        &&& (#[trigger] filter_block@[j]).name == filter_schema@[j].name
                        &&& filter_block@[j].values.len() == 1
                        &&& filter_block@[j].values[0] is Bytes
                    },
            decreases filter_block@.len() - i,
        {
            proof {
                assert(filter_block@[i as int] == filter_block.columns@[i as int]@);
                assert(filter_schema@[i as int] == filter_schema.fields@[i as int]@);
            }
            let col = &filter_block.columns[i];
            let field = &filter_schema.fields[i];
            if !str_eq(col.name.as_str(), field.name.as_str()) || col.values.len() != 1 {
                proof {
                    assert(!filter_block_matches(filter_schema@, filter_block@));
                }
                return Err(EngineError::bad_arguments(String::from_str(
                    "filter block does not match filter schema",
                )));
            }
            proof {
                assert(col.values.deep_view()[0] == col.values@[0]@);
            }
            if !matches!(&col.values[0], Value::Bytes(_)) {
                proof {
                    assert(!filter_block_matches(filter_schema@, filter_block@));
                }
                return Err(EngineError::bad_arguments(String::from_str(
                    "filter column does not hold bytes",
                )));
            }
            i += 1;
        }
        Ok(
            BlockFilter {
                func_ctx,
                source_schema,
                filter_schema,
                version,
                filter_block,
                column_distinct_count: Vec::new(),
            },
        )
    }

    /// Whether every stored filter cell decodes back to a well-formed
    /// filter; filters this index built itself always do. Probing and
    /// evaluation err only where this fails.
    pub open spec fn all_filters_decode(&self) -> bool {
        forall|i: int|
            0 <= i < self.filter_block@.len() ==> exists|p: FilterParts|
                #[trigger] p.wf() && bytes_cell((#[trigger] self.filter_block@[i]).values[0])
                    == filter_encoding(p.seed, p.block_length, p.finger_prints@)
    }

    /// Whether a probe of the stored filter decides the predicate
    /// `column = value` is false on every row: the column is indexed,
    /// the type applicable, the value non-null, and the filter — read
    /// back from its bytes — reports the value absent.
    pub open spec fn find_verdict_must_false(&self, c: Seq<char>, v: ValueView, ty: DataType) -> bool {
        &&& self.stored_filter_bytes(c) is Some
        &&& spec_supported_type(ty)
        &&& !(v is Null)
        &&& exists|p: FilterParts|
            #[trigger] p.wf() && self.stored_filter_bytes(c).unwrap() == filter_encoding(
                p.seed,
                p.block_length,
                p.finger_prints@,
            ) && !(if self.version == LEGACY_FILTER_VERSION {
                xor8_member_bytes(p.seed, p.block_length, p.finger_prints@, value_digest_bytes(v))
            } else {
                xor8_member(p.seed, p.block_length, p.finger_prints@, digest_of(v))
            })
    }

    /// Probe the stored filter for `column = value`. A column without
    /// a filter, an inapplicable type, or a null value learns nothing;
    /// otherwise the verdict follows the filter, and stored bytes that
    /// decode to no filter are reported as corruption.
    pub fn find(&self, column_name: &str, target: &Value, ty: &DataType) -> (r: Result<
        FilterEvalResult,
        EngineError,
    >)
        requires
            self.wf(),
        ensures
            match r {
                Ok(v) => v == FilterEvalResult::MustFalse <==> self.find_verdict_must_false(
                    column_name@,
                    target@,
                    *ty,
                ),
                Err(e) => e.kind == ErrorKind::Internal && !self.all_filters_decode(),
            },
    {
        let filter_column = Self::build_filter_column_name(column_name);
        let idx = match self.filter_schema.index_of(filter_column.as_str()) {
            Ok(i) => i,
            Err(_) => {
                return Ok(FilterEvalResult::Uncertain);
            },
        };
        if !is_supported_type(ty) || target.is_null() {
            return Ok(FilterEvalResult::Uncertain);
        }
        proof {
            lemma_find_field_in_range(self.filter_schema@, filter_column@);
        }
        let col = &self.filter_block.columns[idx];
        proof {
            assert(self.filter_block@[idx as int] == self.filter_block.columns@[idx as int]@);
            assert(col.values.deep_view()[0] == col.values@[0]@);
        }
        let bytes = match &col.values[0] {
            Value::Bytes(b) => b,
            _ => {
                proof {
                    assert(false);
                }
                return Err(EngineError::internal(String::from_str("filter cell is not bytes")));
            },
        };
        proof {
            assert(self.stored_filter_bytes(column_name@) == Option::Some(bytes@));
        }
        let parts = match FilterParts::from_bytes(bytes) {
            Ok(p) => p,
            Err(e) => {
                proof {
                    if self.all_filters_decode() {
                        assert(exists|p: FilterParts|
                            #[trigger] p.wf() && bytes_cell(
                                (#[trigger] self.filter_block@[idx as int]).values[0],
                            ) == filter_encoding(p.seed, p.block_length, p.finger_prints@));
                        assert(false);
                    }
                }
                return Err(e);
            },
        };
        let contains = if self.version == LEGACY_FILTER_VERSION {
            let encoded = crate::digest::encode_value(target);
            filter_contains_raw(&parts, &encoded)
        } else {
            let dig = digest_value(target);
            filter_contains(&parts, dig)
        };
        if contains {
            proof {
                if self.find_verdict_must_false(column_name@, target@, *ty) {
                    assert(self.stored_filter_bytes(column_name@).unwrap() == bytes@);
                    let p2 = choose|p2: FilterParts|
                        #[trigger] p2.wf() && self.stored_filter_bytes(column_name@).unwrap()
                            == filter_encoding(p2.seed, p2.block_length, p2.finger_prints@) && !(
                        if self.version == LEGACY_FILTER_VERSION {
                            xor8_member_bytes(
                                p2.seed,
                                p2.block_length,
                                p2.finger_prints@,
                                value_digest_bytes(target@),
                            )
                        } else {
                            xor8_member(p2.seed, p2.block_length, p2.finger_prints@, digest_of(target@))
                        });
                    crate::xor_filter::lemma_filter_encoding_injective(parts, p2);
                    assert(false);
                }
            }
            Ok(FilterEvalResult::Uncertain)
        } else {
            proof {
                assert(parts.wf() && self.stored_filter_bytes(column_name@).unwrap()
                    == filter_encoding(parts.seed, parts.block_length, parts.finger_prints@) && !(
                if self.version == LEGACY_FILTER_VERSION {
                    xor8_member_bytes(
                        parts.seed,
                        parts.block_length,
                        parts.finger_prints@,
                        value_digest_bytes(target@),
                    )
                } else {
                    xor8_member(parts.seed, parts.block_length, parts.finger_prints@, digest_of(target@))
                }));
                assert(self.find_verdict_must_false(column_name@, target@, *ty));
            }
            Ok(FilterEvalResult::MustFalse)
        }
    }
}

/// Whatever position the field search reports lies inside the schema.
pub proof fn lemma_find_field_in_range(s: Seq<TableFieldView>, name: Seq<char>)
    ensures
        find_field(s, name) is Some ==> 0 <= find_field(s, name).unwrap() < s.len(),
    decreases s.len(),
{
    if s.len() > 0 {
        lemma_find_field_in_range(s.drop_first(), name);
    }
}

/// Law: the filter never refutes a value it was built over — a filter
/// that accepts the digest of a (non-null) value cannot decide
/// `column = value` is false, whatever probe the version selects,
/// as long as the layout is the digest-probing one.
pub proof fn lemma_filter_no_false_negative(
    bf: BlockFilter,
    c: Seq<char>,
    v: ValueView,
    ty: DataType,
)
    requires
        bf.accepts(c, digest_of(v)),
        bf.version != LEGACY_FILTER_VERSION,
    ensures
        !bf.find_verdict_must_false(c, v, ty),
{
    if bf.find_verdict_must_false(c, v, ty) {
        let p1 = choose|p1: FilterParts|
            #[trigger] p1.wf() && bf.stored_filter_bytes(c).unwrap() == filter_encoding(
                p1.seed,
                p1.block_length,
                p1.finger_prints@,
            ) && xor8_member(p1.seed, p1.block_length, p1.finger_prints@, digest_of(v));
        let p2 = choose|p2: FilterParts|
            #[trigger] p2.wf() && bf.stored_filter_bytes(c).unwrap() == filter_encoding(
                p2.seed,
                p2.block_length,
                p2.finger_prints@,
            ) && !xor8_member(p2.seed, p2.block_length, p2.finger_prints@, digest_of(v));
        crate::xor_filter::lemma_filter_encoding_injective(p1, p2);
        assert(false);
    }
}

/// The bytes a filter cell stores.
pub open spec fn bytes_cell(v: ValueView) -> Seq<u8> {
    match v {
        ValueView::Bytes(b) => b,
        _ => Seq::empty(),
    }
}

/// All the rows the blocks hold together: how many digests one
/// column contributes to its filter's build.
pub open spec fn blocks_total_rows(blocks: Seq<DataBlock>) -> nat
    decreases blocks.len(),
{
    if blocks.len() == 0 {
        0
    } else {
        blocks_total_rows(blocks.drop_last()) + blocks.last().rows()
    }
}

/// One more block adds its rows to the total.
proof fn lemma_total_rows_step(blocks: Seq<DataBlock>, b: int)
    requires
        0 <= b < blocks.len(),
    ensures
        blocks_total_rows(blocks.take(b + 1)) == blocks_total_rows(blocks.take(b))
            + blocks[b].rows(),
{
    assert(blocks.take(b + 1).drop_last() =~= blocks.take(b));
    assert(blocks.take(b + 1).last() == blocks[b]);
}

/// The inputs the filter build rejects: no blocks at all, a source
/// schema that does not line up with the first block, or blocks that
/// disagree with each other in column count.
pub open spec fn try_create_rejects(
    source_schema: Seq<TableFieldView>,
    blocks: Seq<DataBlock>,
) -> bool {
    ||| blocks.len() == 0
    ||| source_schema.len() != blocks[0]@.len()
    ||| exists|b: int| 0 <= b < blocks.len() && (#[trigger] blocks[b])@.len() != blocks[0]@.len()
}

/// Whether stored filter bytes were built over every cell of column
/// `ci` of the given blocks: some well-formed filter serializes to
/// these bytes and reports every cell's digest present.
pub open spec fn column_filter_ok(blocks: Seq<DataBlock>, ci: int, bytes: Seq<u8>) -> bool {
    exists|p: FilterParts|
        #[trigger] p.wf() && bytes == filter_encoding(p.seed, p.block_length, p.finger_prints@)
            && forall|b: int, rr: int|
            0 <= b < blocks.len() && 0 <= rr < blocks[b].rows() && ci < blocks[b]@.len()
                ==> xor8_member(
                p.seed,
                p.block_length,
                p.finger_prints@,
                cell_digest(#[trigger] blocks[b]@[ci].values[rr]),
            )
}

/// Appending a word keeps everything already listed, and lists it.
proof fn lemma_push_keeps_contains(s: Seq<u64>, d: u64)
    ensures
        forall|x: u64| s.contains(x) ==> #[trigger] s.push(d).contains(x),
        s.push(d).contains(d),
{
    assert forall|x: u64| s.contains(x) implies #[trigger] s.push(d).contains(x) by {
        let w = choose|w: int| 0 <= w < s.len() && #[trigger] s[w] == x;
        assert(s.push(d)[w] == x);
    }
    assert(s.push(d)[s.len() as int] == d);
}

/// Two columns share a filter field name only when they share a name.
proof fn lemma_bloom_name_injective(a: Seq<char>, b: Seq<char>)
    requires
        spec_filter_column_name(a) == spec_filter_column_name(b),
    ensures
        a == b,
{
    reveal_strlit("Bloom(");
    reveal_strlit(")");
    let ea = spec_filter_column_name(a);
    let eb = spec_filter_column_name(b);
    assert(ea.len() == 7 + a.len());
    assert(eb.len() == 7 + b.len());
    assert forall|t: int| 0 <= t < a.len() implies a[t] == b[t] by {
        assert(ea[6 + t] == a[t]);
        assert(eb[6 + t] == b[t]);
    }
    assert(a =~= b);
}

impl BlockFilter {
    /// Build the per-column filters for one partition. Every column of
    /// an applicable type gets a filter over the digests of its cells
    /// across all the blocks, nulls contributing the zero digest, and
    /// the filter is stored serialized under `Bloom(<column>)` beside
    /// the column's approximate distinct count. The blocks must agree
    /// in column count with each other and with the source schema, and
    /// there must be at least one.
    #[verifier::loop_isolation(false)]
    pub fn try_create(
        func_ctx: FunctionContext,
        source_schema: TableSchema,
        version: u64,
        blocks: &Vec<DataBlock>,
    ) -> (r: Result<BlockFilter, EngineError>)
        requires
            forall|b: int| 0 <= b < blocks@.len() ==> (#[trigger] blocks@[b]).wf(),
            forall|i: int, j: int|
                0 <= i < j < source_schema@.len() ==> (#[trigger] source_schema@[i].name)
                    != (#[trigger] source_schema@[j].name),
            blocks_total_rows(blocks@) < MAX_FILTER_DIGESTS,
        ensures
            match r {
                Ok(bf) => {
                    &&& !try_create_rejects(source_schema@, blocks@)
                    &&& blocks@.len() > 0
                    &&& source_schema@.len() == blocks@[0]@.len()
                    &&& bf.wf()
                    &&& bf.version == version
                    &&& bf.func_ctx == func_ctx
                    &&& bf.source_schema == source_schema
                    &&& forall|i: int|
                        0 <= i < blocks@[0]@.len() && spec_supported_type(
                            (#[trigger] blocks@[0]@[i]).data_type,
                        ) ==> bf.stored_filter_bytes(source_schema@[i].name) is Some
                    &&& forall|i: int, b: int, rr: int|
                        0 <= i < blocks@[0]@.len() && 0 <= b < blocks@.len() && 0 <= rr
                            < blocks@[b].rows() && i < blocks@[b]@.len() && spec_supported_type(
                            blocks@[0]@[i].data_type,
                        ) ==> bf.accepts(
                            source_schema@[i].name,
                            cell_digest(#[trigger] blocks@[b]@[i].values[rr]),
                        )
                    &&& bf.all_filters_decode()
                    // One filter field per supported source column, in
                    // source order, beside that column's approximate
                    // distinct count.
                    &&& bf.filter_schema@.len() == bf.column_distinct_count@.len()
                    &&& forall|k: int|
                        0 <= k < bf.column_distinct_count@.len() ==> {
                            &&& ((#[trigger] bf.column_distinct_count@[k]).0 as int)
                                < blocks@[0]@.len()
                            &&& spec_supported_type(
                                blocks@[0]@[bf.column_distinct_count@[k].0 as int].data_type,
                            )
                            &&& bf.filter_schema@[k].name == spec_filter_column_name(
                                source_schema@[bf.column_distinct_count@[k].0 as int].name,
                            )
                        }
                    &&& forall|k1: int, k2: int|
                        0 <= k1 < k2 < bf.column_distinct_count@.len() ==> (
                        #[trigger] bf.column_distinct_count@[k1]).0 < (
                        #[trigger] bf.column_distinct_count@[k2]).0
                    &&& forall|c: int|
                        0 <= c < blocks@[0]@.len() && spec_supported_type(
                            (#[trigger] blocks@[0]@[c]).data_type,
                        ) ==> exists|k: int|
                            0 <= k < bf.column_distinct_count@.len() && (
                            #[trigger] bf.column_distinct_count@[k]).0 == c
                    // Every filter sits in the single row of the block.
                    &&& (bf.filter_block@.len() > 0 ==> block_rows(bf.filter_block@) == 1)
                },
                Err(e) => {
                    &&& e.kind == ErrorKind::BadArguments
                    &&& try_create_rejects(source_schema@, blocks@)
                },
            },
    {
        if blocks.len() == 0 {
            return Err(EngineError::bad_arguments(String::from_str("block is empty")));
        }
        let ncols = blocks[0].num_columns();
        if source_schema.fields.len() != ncols {
            proof {
                assert(source_schema@.len() != blocks@[0]@.len());
            }
            return Err(EngineError::bad_arguments(String::from_str(
                "source schema does not match the blocks",
            )));
        }
        let mut b: usize = 0;
        while b < blocks.len()
            invariant
                0 <= b <= blocks@.len(),
                ncols == blocks@[0]@.len(),
                forall|b2: int| 0 <= b2 < b ==> (#[trigger] blocks@[b2])@.len() == ncols,
            decreases blocks@.len() - b,
        {
            if blocks[b].num_columns() != ncols {
                proof {
                    assert((blocks@[b as int])@.len() != blocks@[0]@.len());
                }
                return Err(EngineError::bad_arguments(String::from_str(
                    "blocks differ in column count",
                )));
            }
            b += 1;
        }
        let mut filter_fields: Vec<TableField> = Vec::new();
        let mut filter_columns: Vec<Column> = Vec::new();
        let mut column_distinct_count: Vec<(usize, usize)> = Vec::new();
        let mut i: usize = 0;
        while i < ncols
            invariant
                0 <= i <= ncols,
                ncols == blocks@[0]@.len(),
                ncols == source_schema@.len(),
                blocks@.len() > 0,
                forall|b2: int| 0 <= b2 < blocks@.len() ==> (#[trigger] blocks@[b2])@.len() == ncols,
                forall|b2: int| 0 <= b2 < blocks@.len() ==> (#[trigger] blocks@[b2]).wf(),
                filter_fields@.len() == filter_columns@.len(),
                filter_fields@.len() == column_distinct_count@.len(),
                forall|k: int|
                    0 <= k < filter_columns@.len() ==> {
                        &&& (#[trigger] filter_columns@[k])@.name == filter_fields@[k]@.name
                        &&& filter_columns@[k]@.values.len() == 1
                        &&& filter_columns@[k]@.values[0] is Bytes
                    },
                forall|k: int|
                    0 <= k < column_distinct_count@.len() ==> {
                        &&& ((#[trigger] column_distinct_count@[k]).0 as int) < i
                        &&& spec_supported_type(
                            blocks@[0]@[column_distinct_count@[k].0 as int].data_type,
                        )
                    },
                forall|k: int|
                    0 <= k < filter_fields@.len() ==> (#[trigger] filter_fields@[k])@.name
                        == spec_filter_column_name(
                        source_schema@[column_distinct_count@[k].0 as int].name,
                    ),
                forall|k1: int, k2: int|
                    0 <= k1 < k2 < column_distinct_count@.len() ==> (
                    #[trigger] column_distinct_count@[k1]).0 < (
                    #[trigger] column_distinct_count@[k2]).0,
                forall|c: int|
                    0 <= c < i && spec_supported_type((#[trigger] blocks@[0]@[c]).data_type)
                        ==> exists|k: int|
                        0 <= k < column_distinct_count@.len() && (
                        #[trigger] column_distinct_count@[k]).0 == c,
                forall|k: int|
                    0 <= k < filter_columns@.len() ==> column_filter_ok(
                        blocks@,
                        column_distinct_count@[k].0 as int,
                        bytes_cell((#[trigger] filter_columns@[k])@.values[0]),
                    ),
            decreases ncols - i,
        {
            proof {
                assert(blocks@[0]@[i as int] == blocks@[0].columns@[i as int]@);
            }
            let data_type = blocks[0].columns[i].data_type;
            if is_supported_type(&data_type) {
                // Digest every cell of this column across the blocks.
                let mut digests: Vec<u64> = Vec::new();
                proof {
                    assert(blocks@.take(0) =~= Seq::<DataBlock>::empty());
                }
                let mut b2: usize = 0;
                while b2 < blocks.len()
                    invariant
                        0 <= b2 <= blocks@.len(),
                        0 <= i < ncols,
                        ncols == blocks@[0]@.len(),
                        forall|b3: int|
                            0 <= b3 < blocks@.len() ==> (#[trigger] blocks@[b3])@.len() == ncols,
                        forall|b3: int| 0 <= b3 < blocks@.len() ==> (#[trigger] blocks@[b3]).wf(),
                        digests@.len() == blocks_total_rows(blocks@.take(b2 as int)),
                        forall|b3: int, r3: int|
                            0 <= b3 < b2 && 0 <= r3 < blocks@[b3].rows() ==> digests@.contains(
                                cell_digest(#[trigger] blocks@[b3]@[i as int].values[r3]),
                            ),
                    decreases blocks@.len() - b2,
                {
                    let block = &blocks[b2];
                    let rows = block.num_rows();
                    let mut r3: usize = 0;
                    while r3 < rows
                        invariant
                            0 <= r3 <= rows,
                            0 <= b2 < blocks@.len(),
                            0 <= i < ncols,
                            block == blocks@[b2 as int],
                            rows == block.rows(),
                            block.wf(),
                            block@.len() == ncols,
                            digests@.len() == blocks_total_rows(blocks@.take(b2 as int)) + r3,
                            forall|b3: int, r4: int|
                                0 <= b3 < b2 && 0 <= r4 < blocks@[b3].rows()
                                    ==> digests@.contains(
                                    cell_digest(#[trigger] blocks@[b3]@[i as int].values[r4]),
                                ),
                            forall|r4: int|
                                0 <= r4 < r3 ==> digests@.contains(
                                    cell_digest(#[trigger] blocks@[b2 as int]@[i as int].values[r4]),
                                ),
                        decreases rows - r3,
                    {
                        proof {
                            assert(block@[i as int] == block.columns@[i as int]@);
                            assert(block@[i as int].values.len() == block.rows());
                            assert(block.columns@[i as int]@.values[r3 as int]
                                == block.columns@[i as int].values@[r3 as int]@);
                        }
                        let cell = &block.columns[i].values[r3];
                        let dig: u64 = if cell.is_null() {
                            0
                        } else {
                            digest_value(cell)
                        };
                        let ghost digests0 = digests@;
                        digests.push(dig);
                        proof {
                            lemma_push_keeps_contains(digests0, dig);
                            assert(digests@ =~= digests0.push(dig));
                            assert(dig == cell_digest(blocks@[b2 as int]@[i as int].values[r3 as int]));
                        }
                        r3 += 1;
                    }
                    proof {
                        lemma_total_rows_step(blocks@, b2 as int);
                    }
                    b2 += 1;
                }
                // Build, serialize and record the filter.
                proof {
                    assert(blocks@.take(blocks@.len() as int) =~= blocks@);
                }
                let (parts, distinct) = build_filter(&digests);
                let serialized = parts.to_bytes();
                proof {
                    assert forall|b3: int, r4: int|
                        0 <= b3 < blocks@.len() && 0 <= r4 < blocks@[b3].rows() && (i as int)
                            < blocks@[b3]@.len() implies xor8_member(
                        parts.seed,
                        parts.block_length,
                        parts.finger_prints@,
                        cell_digest(#[trigger] blocks@[b3]@[i as int].values[r4]),
                    ) by {
                        assert(digests@.contains(
                            cell_digest(blocks@[b3]@[i as int].values[r4]),
                        ));
                        let w = choose|w: int|
                            0 <= w < digests@.len() && #[trigger] digests@[w] == cell_digest(
                                blocks@[b3]@[i as int].values[r4],
                            );
                    }
                    assert(column_filter_ok(blocks@, i as int, serialized@));
                }
                let filter_name = Self::build_filter_column_name(
                    source_schema.fields[i].name.as_str(),
                );
                proof {
                    assert(source_schema@[i as int] == source_schema.fields@[i as int]@);
                }
                let ghost cdc0 = column_distinct_count@;
                let field_name_copy = clone_string(&filter_name);
                filter_fields.push(
                    TableField {
                        name: field_name_copy,
                        data_type: DataType { id: TypeID::Bytes, nullable: false },
                    },
                );
                let mut cell_values: Vec<Value> = Vec::new();
                cell_values.push(Value::Bytes(serialized));
                filter_columns.push(
                    Column {
                        name: filter_name,
                        data_type: DataType { id: TypeID::Bytes, nullable: false },
                        values: cell_values,
                    },
                );
                column_distinct_count.push((i, distinct));
                proof {
                    let k = filter_columns@.len() - 1;
                    assert(filter_columns@[k]@.values =~= seq![ValueView::Bytes(serialized@)]);
                    assert(bytes_cell(filter_columns@[k]@.values[0]) == serialized@);
                    assert(column_distinct_count@[k] == (i, distinct));
                    assert forall|c: int|
                        0 <= c < i + 1 && spec_supported_type(
                            (#[trigger] blocks@[0]@[c]).data_type,
                        ) implies exists|k2: int|
                        0 <= k2 < column_distinct_count@.len() && (
                        #[trigger] column_distinct_count@[k2]).0 == c by {
                        if c < i {
                            let k0 = choose|k0: int|
                                0 <= k0 < cdc0.len() && (#[trigger] cdc0[k0]).0 == c;
                            assert(column_distinct_count@[k0].0 == c);
                        } else {
                            assert(column_distinct_count@[k].0 == c);
                        }
                    }
                }
            }
            i += 1;
        }
        let filter_schema = TableSchema { fields: filter_fields };
        let filter_block = DataBlock { columns: filter_columns };
        let bf = BlockFilter {
            func_ctx,
            source_schema,
            filter_schema,
            version,
            filter_block,
            column_distinct_count,
        };
        proof {
            let fs = bf.filter_schema@;
            let fb = bf.filter_block@;
            assert forall|k: int| 0 <= k < fb.len() implies #[trigger] fb[k]
                == filter_columns@[k]@ by {}
            assert forall|k: int| 0 <= k < fs.len() implies #[trigger] fs[k]
                == filter_fields@[k]@ by {}
            assert(bf.wf());
            // Every supported column's filter is found under its name,
            // and its filter was built over the column's cells.
            assert forall|c: int|
                0 <= c < blocks@[0]@.len() && spec_supported_type(
                    (#[trigger] blocks@[0]@[c]).data_type,
                ) implies bf.stored_filter_bytes(bf.source_schema@[c].name) is Some && (
            forall|b3: int, r4: int|
                0 <= b3 < blocks@.len() && 0 <= r4 < blocks@[b3].rows() && c < blocks@[b3]@.len()
                    ==> bf.accepts(
                    bf.source_schema@[c].name,
                    cell_digest(#[trigger] blocks@[b3]@[c].values[r4]),
                )) by {
                let k = choose|k: int|
                    0 <= k < column_distinct_count@.len() && (
                    #[trigger] column_distinct_count@[k]).0 == c;
                let target = spec_filter_column_name(bf.source_schema@[c].name);
                assert(fs[k].name == target);
                assert forall|j: int| 0 <= j < fs.len() && j != k implies (#[trigger] fs[j]).name
                    != target by {
                    let cj = column_distinct_count@[j].0 as int;
                    if j < k {
                        assert(column_distinct_count@[j].0 < column_distinct_count@[k].0);
                    } else {
                        assert(column_distinct_count@[k].0 < column_distinct_count@[j].0);
                    }
                    assert(bf.source_schema@[cj].name != bf.source_schema@[c].name);
                    if fs[j].name == target {
                        lemma_bloom_name_injective(
                            bf.source_schema@[cj].name,
                            bf.source_schema@[c].name,
                        );
                        assert(false);
                    }
                }
                lemma_find_field_first(fs, target, k);
                assert(bf.stored_filter_bytes(bf.source_schema@[c].name) == Option::Some(
                    bytes_cell(fb[k].values[0]),
                ));
                assert(column_filter_ok(blocks@, c, bytes_cell(fb[k].values[0])));
                let p = choose|p: FilterParts|
                    #[trigger] p.wf() && bytes_cell(fb[k].values[0]) == filter_encoding(
                        p.seed,
                        p.block_length,
                        p.finger_prints@,
                    ) && forall|b4: int, r5: int|
                        0 <= b4 < blocks@.len() && 0 <= r5 < blocks@[b4].rows() && c
                            < blocks@[b4]@.len() ==> xor8_member(
                            p.seed,
                            p.block_length,
                            p.finger_prints@,
                            cell_digest(#[trigger] blocks@[b4]@[c].values[r5]),
                        );
                assert forall|b3: int, r4: int|
                    0 <= b3 < blocks@.len() && 0 <= r4 < blocks@[b3].rows() && c
                        < blocks@[b3]@.len() implies bf.accepts(
                    bf.source_schema@[c].name,
                    cell_digest(#[trigger] blocks@[b3]@[c].values[r4]),
                ) by {
                    assert(xor8_member(
                        p.seed,
                        p.block_length,
                        p.finger_prints@,
                        cell_digest(blocks@[b3]@[c].values[r4]),
                    ));
                }
            }
        }
        Ok(bf)
    }
}

/// The `column = constant` pattern, in either order: the column's
/// name, the constant, the column's type and the node's return type.
pub open spec fn match_eq_col_const(e: Expr) -> Option<(Seq<char>, ValueView, DataType, DataType)> {
    match e {
        Expr::FunctionCall { name, args, return_type } => {
            if name@ == "eq"@ && args@.len() == 2 {
                match (args@[0], args@[1]) {
                    (
                        Expr::ColumnRef { id, data_type },
                        Expr::Constant { scalar, .. },
                    ) => Option::Some((id@, scalar@, data_type, return_type)),
                    (
                        Expr::Constant { scalar, .. },
                        Expr::ColumnRef { id, data_type },
                    ) => Option::Some((id@, scalar@, data_type, return_type)),
                    _ => Option::None,
                }
            } else {
                Option::None
            }
        },
        _ => Option::None,
    }
}

/// How the evaluator rewrites a predicate against the filters: a
/// `column = constant` node whose value the filter refutes becomes
/// the literal `false`; any other node keeps its shape, with casts
/// and function arguments rewritten beneath it.
pub open spec fn rewrite_rel(bf: BlockFilter, old_e: Expr, new_e: Expr) -> bool
    decreases old_e,
{
    match match_eq_col_const(old_e) {
        Option::Some(patt) => {
            if bf.find_verdict_must_false(patt.0, patt.1, patt.2) {
                match new_e {
                    Expr::Constant { scalar, data_type } => scalar@ == ValueView::Boolean(false)
                        && data_type == patt.3,
                    _ => false,
                }
            } else {
                new_e == old_e
            }
        },
        Option::None => match old_e {
            Expr::Constant { .. } => new_e == old_e,
            Expr::ColumnRef { .. } => new_e == old_e,
            Expr::Cast { expr, dest_type } => match new_e {
                Expr::Cast { expr: e2, dest_type: d2 } => d2 == dest_type && rewrite_rel(
                    bf,
                    *expr,
                    *e2,
                ),
                _ => false,
            },
            Expr::FunctionCall { name, args, return_type } => match new_e {
                Expr::FunctionCall { name: n2, args: a2, return_type: rt2 } => {
                    &&& n2@ == name@
                    &&& rt2 == return_type
                    &&& a2@.len() == args@.len()
                    &&& forall|k: int|
                        0 <= k < args@.len() ==> rewrite_rel(bf, #[trigger] args@[k], a2@[k])
                },
                _ => false,
            },
        },
    }
}

/// The names of the columns that appear in `column = constant` nodes.
pub open spec fn eq_columns_of(e: Expr) -> Seq<Seq<char>>
    decreases e,
{
    match match_eq_col_const(e) {
        Option::Some(patt) => seq![patt.0],
        Option::None => match e {
            Expr::Constant { .. } => Seq::empty(),
            Expr::ColumnRef { .. } => Seq::empty(),
            Expr::Cast { expr, .. } => eq_columns_of(*expr),
            Expr::FunctionCall { args, .. } => eq_columns_list(args@),
        },
    }
}

/// The names collected over a list of expression trees.
pub open spec fn eq_columns_list(s: Seq<Expr>) -> Seq<Seq<char>>
    decreases s,
{
    if s.len() == 0 {
        Seq::empty()
    } else {
        eq_columns_of(s[0]) + eq_columns_list(s.drop_first())
    }
}

impl BlockFilter {
    /// Rewrite every `column = constant` node the filters refute into
    /// the literal `false`, leaving everything else in shape. Stored
    /// filter bytes that decode to no filter are reported as
    /// corruption.
    #[verifier::loop_isolation(false)]
    fn rewrite_absent_eq(&self, e: Expr) -> (r: Result<Expr, EngineError>)
        requires
            self.wf(),
        ensures
            match r {
                Ok(e2) => rewrite_rel(*self, e, e2),
                Err(err) => err.kind == ErrorKind::Internal && !self.all_filters_decode(),
            },
        decreases crate::expr::expr_size(e),
    {
        let ghost whole = e;
        let pat: Option<(String, Value, DataType, DataType)> = match &e {
            Expr::FunctionCall { name, args, return_type } => {
                if str_eq(name.as_str(), "eq") && args.len() == 2 {
                    match (&args[0], &args[1]) {
                        (
                            Expr::ColumnRef { id, data_type },
                            Expr::Constant { scalar, .. },
                        ) => Option::Some(
                            (clone_string(id), scalar.clone_value(), *data_type, *return_type),
                        ),
                        (
                            Expr::Constant { scalar, .. },
                            Expr::ColumnRef { id, data_type },
                        ) => Option::Some(
                            (clone_string(id), scalar.clone_value(), *data_type, *return_type),
                        ),
                        _ => Option::None,
                    }
                } else {
                    Option::None
                }
            },
            _ => Option::None,
        };
        match pat {
            Option::Some((cid, cval, cty, crt)) => {
                proof {
                    assert(match_eq_col_const(e) == Option::Some((cid@, cval@, cty, crt)));
                }
                let verdict = match self.find(cid.as_str(), &cval, &cty) {
                    Ok(v) => v,
                    Err(er) => {
                        return Err(er);
                    },
                };
                if matches!(verdict, FilterEvalResult::MustFalse) {
                    Ok(Expr::Constant { scalar: Value::Boolean(false), data_type: crt })
                } else {
                    Ok(e)
                }
            },
            Option::None => {
                proof {
                    assert(match_eq_col_const(e) is None);
                }
                match e {
                    Expr::Constant { scalar, data_type } => Ok(
                        Expr::Constant { scalar, data_type },
                    ),
                    Expr::ColumnRef { id, data_type } => Ok(Expr::ColumnRef { id, data_type }),
                    Expr::Cast { expr, dest_type } => {
                        let sub = match self.rewrite_absent_eq(*expr) {
                            Ok(s) => s,
                            Err(er) => {
                                return Err(er);
                            },
                        };
                        Ok(Expr::Cast { expr: Box::new(sub), dest_type })
                    },
                    Expr::FunctionCall { name, args, return_type } => {
                        let ghost args0 = args@;
                        proof {
                            assert(crate::expr::expr_size(whole) == 1 + crate::expr::exprs_size(
                                args0,
                            ));
                        }
                        let mut rest = args;
                        let mut new_args: Vec<Expr> = Vec::new();
                        while rest.len() > 0
                            invariant
                                self.wf(),
                                crate::expr::expr_size(whole) == 1 + crate::expr::exprs_size(
                                    args0,
                                ),
                                rest@ =~= args0.skip(new_args@.len() as int),
                                new_args@.len() <= args0.len(),
                                forall|k: int|
                                    0 <= k < new_args@.len() ==> rewrite_rel(
                                        *self,
                                        #[trigger] args0[k],
                                        new_args@[k],
                                    ),
                            decreases rest@.len(),
                        {
                            let ghost k = new_args@.len() as int;
                            let a = rest.remove(0);
                            proof {
                                assert(a == args0[k]);
                                assert(rest@ =~= args0.skip(k + 1));
                                crate::expr::lemma_exprs_size_element(args0, k);
                                assert(crate::expr::expr_size(a) < crate::expr::expr_size(whole));
                            }
                            let a2 = match self.rewrite_absent_eq(a) {
                                Ok(x) => x,
                                Err(er) => {
                                    return Err(er);
                                },
                            };
                            new_args.push(a2);
                        }
                        proof {
                            assert(new_args@.len() == args0.len());
                        }
                        Ok(Expr::FunctionCall { name, args: new_args, return_type })
                    },
                }
            },
        }
    }

    /// Apply the predicate expression to the filters: rewrite what the
    /// filters refute, fold constants, and report `MustFalse` exactly
    /// when the predicate folded to the literal `false`.
    pub fn eval(&self, expr: Expr) -> (r: Result<FilterEvalResult, EngineError>)
        requires
            self.wf(),
        ensures
            match r {
                Ok(v) => exists|e2: Expr|
                    #[trigger] rewrite_rel(*self, expr, e2) && (v == FilterEvalResult::MustFalse
                        <==> folds_to_false(e2)),
                Err(e) => e.kind == ErrorKind::Internal && !self.all_filters_decode(),
            },
    {
        let rewritten = match self.rewrite_absent_eq(expr) {
            Ok(e2) => e2,
            Err(er) => {
                return Err(er);
            },
        };
        let folded = fold_const_exec(&rewritten);
        let is_false = matches!(folded, Option::Some(Value::Boolean(false)));
        let verdict = if is_false {
            FilterEvalResult::MustFalse
        } else {
            FilterEvalResult::Uncertain
        };
        proof {
            assert(is_false == folds_to_false(rewritten));
            assert(rewrite_rel(*self, expr, rewritten) && (verdict == FilterEvalResult::MustFalse
                <==> folds_to_false(rewritten)));
        }
        Ok(verdict)
    }

    /// Every column that appears as `column = constant` in the
    /// expression, in visiting order.
    #[verifier::loop_isolation(false)]
    pub fn find_eq_columns(expr: &Expr) -> (r: Result<Vec<String>, EngineError>)
        ensures
            match r {
                Ok(cols) => cols.deep_view() == eq_columns_of(*expr),
                Err(_) => false,
            },
        decreases crate::expr::expr_size(*expr),
    {
        let mut cols: Vec<String> = Vec::new();
        match expr {
            Expr::FunctionCall { name, args, return_type } => {
                let is_eq_pattern: Option<&String> = if str_eq(name.as_str(), "eq") && args.len()
                    == 2 {
                    match (&args[0], &args[1]) {
                        (Expr::ColumnRef { id, .. }, Expr::Constant { .. }) => Option::Some(id),
                        (Expr::Constant { .. }, Expr::ColumnRef { id, .. }) => Option::Some(id),
                        _ => Option::None,
                    }
                } else {
                    Option::None
                };
                match is_eq_pattern {
                    Option::Some(id) => {
                        cols.push(clone_string(id));
                        proof {
                            assert(cols.deep_view() =~~= eq_columns_of(*expr));
                        }
                    },
                    Option::None => {
                        proof {
                            assert(match_eq_col_const(*expr) is None);
                        }
                        let mut j: usize = 0;
                        while j < args.len()
                            invariant
                                0 <= j <= args@.len(),
                                cols.deep_view() =~= eq_columns_list(args@.take(j as int)),
                            decreases args@.len() - j,
                        {
                            proof {
                                assert(crate::expr::expr_size(*expr) == 1
                                    + crate::expr::exprs_size(args@));
                                crate::expr::lemma_exprs_size_element(args@, j as int);
                                assert(crate::expr::expr_size(args@[j as int])
                                    < crate::expr::expr_size(*expr));
                            }
                            let sub = match Self::find_eq_columns(&args[j]) {
                                Ok(s) => s,
                                Err(er) => {
                                    return Err(er);
                                },
                            };
                            extend_strings(&mut cols, &sub);
                            proof {
                                lemma_eq_columns_list_take_step(args@, j as int);
                                assert(cols.deep_view() =~~= eq_columns_list(
                                    args@.take(j as int + 1),
                                ));
                            }
                            j += 1;
                        }
                        proof {
                            assert(args@.take(args@.len() as int) =~= args@);
                        }
                    },
                }
            },
            Expr::Cast { expr: sub, .. } => {
                let inner = match Self::find_eq_columns(sub) {
                    Ok(s) => s,
                    Err(er) => {
                        return Err(er);
                    },
                };
                return Ok(inner);
            },
            _ => {
                proof {
                    assert(cols.deep_view() =~~= eq_columns_of(*expr));
                }
            },
        }
        Ok(cols)
    }
}

/// Append copies of one list of names to another.
fn extend_strings(dst: &mut Vec<String>, src: &Vec<String>)
    ensures
        final(dst).deep_view() == old(dst).deep_view() + src.deep_view(),
{
    let ghost base = old(dst).deep_view();
    let mut si: usize = 0;
    while si < src.len()
        invariant
            0 <= si <= src@.len(),
            dst@.len() == base.len() + si,
            forall|t: int| 0 <= t < base.len() ==> (#[trigger] dst@[t])@ == base[t],
            forall|t: int|
                0 <= t < si ==> (#[trigger] dst@[base.len() + t])@ == src.deep_view()[t],
        decreases src@.len() - si,
    {
        proof {
            assert(src.deep_view()[si as int] == src@[si as int]@);
        }
        dst.push(clone_string(&src[si]));
        si += 1;
    }
    proof {
        assert forall|t: int| 0 <= t < dst.deep_view().len() implies #[trigger] dst.deep_view()[t]
            == (base + src.deep_view())[t] by {
            assert(dst.deep_view()[t] == dst@[t]@);
            if t >= base.len() {
                let t2 = t - base.len();
                assert(dst@[base.len() + t2]@ == src.deep_view()[t2]);
            }
        }
        assert(dst.deep_view() =~~= base + src.deep_view());
    }
}

/// Collecting over one more tree appends that tree's names.
proof fn lemma_eq_columns_list_take_step(s: Seq<Expr>, j: int)
    requires
        0 <= j < s.len(),
    ensures
        eq_columns_list(s.take(j + 1)) == eq_columns_list(s.take(j)) + eq_columns_of(s[j]),
    decreases j,
{
    lemma_eq_columns_list_snoc(s.take(j + 1));
    assert(s.take(j + 1).drop_last() =~= s.take(j));
    assert(s.take(j + 1).last() == s[j]);
}

/// Collecting over a list visits the last tree after the rest.
proof fn lemma_eq_columns_list_snoc(s: Seq<Expr>)
    requires
        s.len() > 0,
    ensures
        eq_columns_list(s) == eq_columns_list(s.drop_last()) + eq_columns_of(s.last()),
    decreases s,
{
    if s.len() == 1 {
        assert(s.drop_first() =~= Seq::<Expr>::empty());
        assert(s.drop_last() =~= Seq::<Expr>::empty());
        assert(eq_columns_list(Seq::<Expr>::empty()) =~~= Seq::<Seq<char>>::empty());
        assert(eq_columns_list(s) =~~= eq_columns_of(s[0]));
        assert(eq_columns_list(s) =~~= eq_columns_list(s.drop_last()) + eq_columns_of(s.last()));
    } else {
        lemma_eq_columns_list_snoc(s.drop_first());
        assert(s.drop_first().drop_last() =~= s.drop_last().drop_first());
        assert(s.drop_first().last() == s.last());
        assert(s.drop_last()[0] == s[0]);
        assert(s.drop_last().len() > 0);
        assert(eq_columns_list(s.drop_last()) == eq_columns_of(s[0]) + eq_columns_list(
            s.drop_last().drop_first(),
        ));
        assert(eq_columns_list(s) =~~= eq_columns_list(s.drop_last()) + eq_columns_of(s.last()));
    }
}

/// The search returns a position only where the field bears the name.
proof fn lemma_find_field_found(s: Seq<TableFieldView>, name: Seq<char>)
    requires
        find_field(s, name) is Some,
    ensures
        ({
            let i = find_field(s, name).unwrap();
            0 <= i < s.len() && s[i].name == name
        }),
    decreases s.len(),
{
    if s.len() > 0 && s[0].name != name {
        lemma_find_field_found(s.drop_first(), name);
    }
}

/// The search returns a position only where the column bears the name.
proof fn lemma_find_column_found(b: Seq<ColumnView>, name: Seq<char>)
    requires
        crate::value::find_column(b, name) is Some,
    ensures
        ({
            let i = crate::value::find_column(b, name).unwrap();
            0 <= i < b.len() && b[i].name == name
        }),
    decreases b.len(),
{
    if b.len() > 0 && b[0].name != name {
        lemma_find_column_found(b.drop_first(), name);
    }
}

/// An evaluation outcome that decides nothing: no value, or a null.
pub open spec fn undecided(x: Option<ValueView>) -> bool {
    x == Option::<ValueView>::None || x == Option::Some(ValueView::Null)
}

/// How the rewrite may move a row evaluation: it leaves the outcome
/// alone, or turns an outcome that decided nothing into some
/// boolean-shaped one. Under either, an outcome that was not `true`
/// stays apart from `true` wherever the new outcome is not `true`.
pub open spec fn verdict_related(x: Option<ValueView>, y: Option<ValueView>) -> bool {
    x == y || (undecided(x) && bool_like(y))
}

/// Whether the filter was built over these blocks: what `try_create`
/// ensures of its result at a digest-probing version, together with
/// the one fact its contract cannot supply — that each block's columns
/// carry the source schema's names, position by position. `try_create`
/// never reads the blocks' column names (digests are taken by
/// position), so a caller asserts the naming clause of the blocks it
/// handed in; every other clause is a clause of `try_create`'s
/// postcondition, with the schema's pairwise-distinct names carried
/// over from its precondition.
pub open spec fn built_over(bf: BlockFilter, blocks: Seq<DataBlock>) -> bool {
    &&& bf.version != LEGACY_FILTER_VERSION
    &&& blocks.len() > 0
    &&& bf.source_schema@.len() == blocks[0]@.len()
    &&& forall|i: int, j: int|
        0 <= i < j < bf.source_schema@.len() ==> (#[trigger] bf.source_schema@[i].name)
            != (#[trigger] bf.source_schema@[j].name)
    &&& forall|k: int| 0 <= k < blocks.len() ==> (#[trigger] blocks[k]).wf()
    &&& forall|k: int| 0 <= k < blocks.len() ==> (#[trigger] blocks[k])@.len() == bf.source_schema@.len()
    &&& forall|k: int, j: int|
        0 <= k < blocks.len() && 0 <= j < blocks[k]@.len() ==> (#[trigger] blocks[k]@[j]).name
            == bf.source_schema@[j].name
    &&& forall|i: int, b: int, rr: int|
        0 <= i < blocks[0]@.len() && 0 <= b < blocks.len() && 0 <= rr < blocks[b].rows() && i
            < blocks[b]@.len() && spec_supported_type(blocks[0]@[i].data_type) ==> bf.accepts(
            bf.source_schema@[i].name,
            cell_digest(#[trigger] blocks[b]@[i].values[rr]),
        )
    &&& bf.filter_schema@.len() == bf.column_distinct_count@.len()
    &&& forall|k: int|
        0 <= k < bf.column_distinct_count@.len() ==> {
            &&& ((#[trigger] bf.column_distinct_count@[k]).0 as int) < blocks[0]@.len()
            &&& spec_supported_type(blocks[0]@[bf.column_distinct_count@[k].0 as int].data_type)
            &&& bf.filter_schema@[k].name == spec_filter_column_name(
                bf.source_schema@[bf.column_distinct_count@[k].0 as int].name,
            )
        }
}

/// The heart of the refutation: a cell equal to the probed value sits
/// in the blocks, so its digest went into the filter at build time,
/// and a filter that accepts the digest cannot also refute it.
proof fn lemma_refuted_cell(
    bf: BlockFilter,
    blocks: Seq<DataBlock>,
    k: int,
    ci: int,
    row: int,
    c: Seq<char>,
    v: ValueView,
    ty: DataType,
)
    requires
        built_over(bf, blocks),
        0 <= k < blocks.len(),
        crate::value::find_column(blocks[k]@, c) == Option::Some(ci),
        0 <= row < blocks[k]@[ci].values.len(),
        blocks[k]@[ci].values[row] == v,
        !(v is Null),
        bf.stored_filter_bytes(c) is Some,
    ensures
        !bf.find_verdict_must_false(c, v, ty),
{
    let bv = blocks[k]@;
    crate::group_by::lemma_find_column_in_range(bv, c);
    lemma_find_column_found(bv, c);
    // The found column bears the schema's name at its position.
    assert(bv.len() == bf.source_schema@.len());
    assert(bf.source_schema@[ci].name == c);
    // The filter stored under `Bloom(c)` indexes a schema column of
    // that very name, and distinct schema names make it this one.
    let fname = spec_filter_column_name(c);
    assert(find_field(bf.filter_schema@, fname) is Some);
    let kf = find_field(bf.filter_schema@, fname).unwrap();
    lemma_find_field_in_range(bf.filter_schema@, fname);
    lemma_find_field_found(bf.filter_schema@, fname);
    let ci0 = bf.column_distinct_count@[kf].0 as int;
    lemma_bloom_name_injective(bf.source_schema@[ci0].name, c);
    assert(ci == ci0);
    // The block is well-formed, so the cell sits at a row of the block.
    assert(bv[ci].values.len() == blocks[k].rows());
    assert(bf.accepts(bf.source_schema@[ci].name, cell_digest(blocks[k]@[ci].values[row])));
    assert(cell_digest(v) == digest_of(v));
    lemma_filter_no_false_negative(bf, c, v, ty);
}

/// A `column = constant` node the filter refutes never evaluates to
/// the boolean `true` at any row of blocks the filter was built over.
proof fn lemma_replaced_node(bf: BlockFilter, blocks: Seq<DataBlock>, e: Expr, k: int, row: int)
    requires
        built_over(bf, blocks),
        match_eq_col_const(e) is Some,
        bf.find_verdict_must_false(
            match_eq_col_const(e).unwrap().0,
            match_eq_col_const(e).unwrap().1,
            match_eq_col_const(e).unwrap().2,
        ),
        0 <= k < blocks.len(),
    ensures
        bool_like(eval_row(e, blocks[k]@, row)),
        eval_row(e, blocks[k]@, row) != Option::Some(ValueView::Boolean(true)),
{
    reveal_strlit("not");
    reveal_strlit("and");
    reveal_strlit("or");
    reveal_strlit("eq");
    let patt = match_eq_col_const(e).unwrap();
    let c = patt.0;
    let v = patt.1;
    let bv = blocks[k]@;
    match e {
        Expr::FunctionCall { name, args, .. } => {
            let a0 = args@[0];
            let a1 = args@[1];
            // One argument is the column reference, the other the
            // constant; the constant side evaluates to its value, and
            // the node follows the cell the column side finds.
            let col_out = match crate::value::find_column(bv, c) {
                Option::Some(ci) => if 0 <= row < bv[ci].values.len() {
                    Option::Some(bv[ci].values[row])
                } else {
                    Option::<ValueView>::None
                },
                Option::None => Option::<ValueView>::None,
            };
            if a0 is ColumnRef {
                assert(eval_row(a0, bv, row) == col_out);
                assert(eval_row(a1, bv, row) == Option::Some(v));
            } else {
                assert(eval_row(a0, bv, row) == Option::Some(v));
                assert(eval_row(a1, bv, row) == col_out);
            }
            // Lengths and first characters tell the connective names
            // apart, so the node takes the equality branch.
            assert(("eq"@).len() == 2 && ("not"@).len() == 3 && ("and"@).len() == 3 && (
            "or"@).len() == 2);
            assert(("eq"@)[0] == 'e' && ("or"@)[0] == 'o');
            assert(!(name@ == "not"@) && !(name@ == "and"@) && !(name@ == "or"@));
            match col_out {
                Option::None => {
                    assert(eval_row(e, bv, row) is None);
                },
                Option::Some(cell) => {
                    if cell is Null || v is Null {
                        assert(eval_row(e, bv, row) == Option::Some(ValueView::Null));
                    } else if cell == v {
                        let ci = crate::value::find_column(bv, c).unwrap();
                        crate::group_by::lemma_find_column_in_range(bv, c);
                        lemma_refuted_cell(bf, blocks, k, ci, row, c, v, patt.2);
                        assert(false);  // the filter both refutes and accepts the digest
                    } else {
                        assert(eval_row(e, bv, row) == Option::Some(ValueView::Boolean(false)));
                    }
                },
            }
        },
        _ => {},
    }
}

/// The rewrite only moves a row evaluation along `verdict_related`:
/// a replaced node decided nothing or was already `false`, and the
/// connectives preserve the relation upward.
proof fn lemma_rewrite_related(
    bf: BlockFilter,
    blocks: Seq<DataBlock>,
    old_e: Expr,
    new_e: Expr,
    k: int,
    row: int,
)
    requires
        built_over(bf, blocks),
        rewrite_rel(bf, old_e, new_e),
        0 <= k < blocks.len(),
    ensures
        verdict_related(eval_row(old_e, blocks[k]@, row), eval_row(new_e, blocks[k]@, row)),
    decreases old_e,
{
    let bv = blocks[k]@;
    match match_eq_col_const(old_e) {
        Option::Some(patt) => {
            if bf.find_verdict_must_false(patt.0, patt.1, patt.2) {
                lemma_replaced_node(bf, blocks, old_e, k, row);
                // The new node is the constant `false`.
                assert(eval_row(new_e, bv, row) == Option::Some(ValueView::Boolean(false)));
            } else {
                // The node is kept as it stands.
            }
        },
        Option::None => match old_e {
            Expr::Constant { .. } => {},
            Expr::ColumnRef { .. } => {},
            Expr::Cast { .. } => {
                match new_e {
                    Expr::Cast { .. } => {
                        assert(eval_row(old_e, bv, row) is None);
                        assert(eval_row(new_e, bv, row) is None);
                    },
                    _ => {
                        assert(false);  // the rewrite keeps a cast a cast
                    },
                }
            },
            Expr::FunctionCall { name, args, .. } => {
                match new_e {
                    Expr::FunctionCall { name: n2, args: a2, .. } => {
                        if name@ == "not"@ && args@.len() == 1 {
                            assert(rewrite_rel(bf, args@[0], a2@[0]));
                            lemma_rewrite_related(bf, blocks, args@[0], a2@[0], k, row);
                            assert(verdict_related(
                                eval_row(old_e, bv, row),
                                eval_row(new_e, bv, row),
                            ));
                        } else if (name@ == "and"@ || name@ == "or"@) && args@.len() == 2 {
                            assert(rewrite_rel(bf, args@[0], a2@[0]));
                            assert(rewrite_rel(bf, args@[1], a2@[1]));
                            lemma_rewrite_related(bf, blocks, args@[0], a2@[0], k, row);
                            lemma_rewrite_related(bf, blocks, args@[1], a2@[1], k, row);
                            assert(verdict_related(
                                eval_row(old_e, bv, row),
                                eval_row(new_e, bv, row),
                            ));
                        } else if name@ == "eq"@ && args@.len() == 2 {
                            assert(rewrite_rel(bf, args@[0], a2@[0]));
                            assert(rewrite_rel(bf, args@[1], a2@[1]));
                            lemma_rewrite_related(bf, blocks, args@[0], a2@[0], k, row);
                            lemma_rewrite_related(bf, blocks, args@[1], a2@[1], k, row);
                            assert(verdict_related(
                                eval_row(old_e, bv, row),
                                eval_row(new_e, bv, row),
                            ));
                        } else {
                            assert(eval_row(old_e, bv, row) is None);
                            assert(eval_row(new_e, bv, row) is None);
                        }
                    },
                    _ => {
                        assert(false);  // the rewrite keeps a call a call
                    },
                }
            },
        },
    }
}

/// Law: a `MustFalse` verdict is sound row by row. Take a filter
/// built over some blocks (`built_over`: what `try_create` ensures,
/// plus the blocks' columns carrying the schema's names) and a
/// predicate whose rewrite against the filters folds to the literal
/// `false` — exactly the witness `eval` exposes when it answers
/// `MustFalse`. Then no row of those blocks satisfies the original
/// predicate: its row evaluation is never the boolean `true`.
pub proof fn lemma_must_false_sound(bf: BlockFilter, blocks: Seq<DataBlock>, expr: Expr)
    requires
        built_over(bf, blocks),
        exists|e2: Expr| #[trigger] rewrite_rel(bf, expr, e2) && folds_to_false(e2),
    ensures
        forall|k: int, row: int|
            0 <= k < blocks.len() ==> #[trigger] eval_row(expr, blocks[k]@, row)
                != Option::Some(ValueView::Boolean(true)),
{
    let e2 = choose|e2: Expr| #[trigger] rewrite_rel(bf, expr, e2) && folds_to_false(e2);
    assert forall|k: int, row: int|
        0 <= k < blocks.len() implies #[trigger] eval_row(expr, blocks[k]@, row)
        != Option::Some(ValueView::Boolean(true)) by {
        lemma_rewrite_related(bf, blocks, expr, e2, k, row);
        lemma_fold_agrees(e2, blocks[k]@, row);
    }
}

} // verus!
