//! The vectorized group-by kernel: per-column hashes are combined into
//! row fingerprints, and rows are partitioned into buckets keyed by
//! pointwise equality of the grouping columns.

use vstd::prelude::*;

use crate::error::EngineError;
use crate::error::ErrorKind;
use crate::strutil::str_eq;
use crate::value::DataBlock;
use crate::value::Value;
use crate::value::ColumnView;
use crate::value::find_column;

verus! {

#[verifier::external_type_specification]
#[verifier::external_body]
pub struct ExRandomState(ahash::RandomState);

/// Relies on `ahash::RandomState::new`: a hasher state with fresh
/// random seeds. Nothing is promised of the hashes it produces.
#[verifier::external_body]
fn random_state() -> ahash::RandomState {
    ahash::RandomState::new()
}

/// Relies on `ahash::RandomState::hash_one`: a 64-bit hash of the
/// integer under this state's seeds. Nothing is promised of the result.
#[verifier::external_body]
fn hash_one_u64(state: &ahash::RandomState, v: u64) -> u64 {
    state.hash_one(v)
}

/// Relies on `ahash::RandomState::hash_one`: a 64-bit hash of the
/// string under this state's seeds. Nothing is promised of the result.
#[verifier::external_body]
fn hash_one_str(state: &ahash::RandomState, s: &str) -> u64 {
    state.hash_one(s)
}

/// Relies on `ahash::RandomState::hash_one`: a 64-bit hash of the
/// bytes under this state's seeds. Nothing is promised of the result.
#[verifier::external_body]
fn hash_one_bytes(state: &ahash::RandomState, b: &Vec<u8>) -> u64 {
    state.hash_one(b.as_slice())
}

/// Hash one cell under the given state; a null hashes as `u64::MAX`.
fn hash_value(state: &ahash::RandomState, v: &Value) -> u64 {
    match v {
        Value::Null => u64::MAX,
        Value::Boolean(b) => hash_one_u64(state, if *b {
            1
        } else {
            0
        }),
        Value::UInt64(x) => hash_one_u64(state, *x),
        Value::Int64(x) => hash_one_u64(state, *x as u64),
        Value::Utf8(s) => hash_one_str(state, s.as_str()),
        Value::Bytes(b) => hash_one_bytes(state, b),
    }
}

/// Addition on 64-bit words, wrapping around.
pub open spec fn wrap_add64(a: u64, b: u64) -> u64 {
    ((a + b) % 0x1_0000_0000_0000_0000) as u64
}

/// The hash combiner, as mathematics: `l ^ (r + 0x9e3779b9 + (l<<6) + (r>>2))`
/// with every addition taken modulo 2^64.
pub open spec fn spec_boost_hash_combine(l: u64, r: u64) -> u64 {
    l ^ wrap_add64(r, wrap_add64(0x9e3779b9u64, wrap_add64(l << 6, r >> 2)))
}

/// Combine two 64-bit hashes into one; bit-exact by contract.
pub fn boost_hash_combine(l: u64, r: u64) -> (h: u64)
    ensures
        h == spec_boost_hash_combine(l, r),
{
    l ^ r.wrapping_add(0x9e3779b9u64.wrapping_add(l << 6).wrapping_add(r >> 2))
}

/// Conversion of hashing keys into a plain 64-bit word.
pub trait AsU64 {
    fn as_u64(self) -> u64;
}

impl AsU64 for u32 {
    fn as_u64(self) -> (r: u64)
        ensures
            r == self as u64,
    {
        self as u64
    }
}

impl AsU64 for u64 {
    fn as_u64(self) -> (r: u64)
        ensures
            r == self,
    {
        self
    }
}

impl AsU64 for Option<u32> {
    fn as_u64(self) -> (r: u64)
        ensures
            r == match self {
                Option::Some(v) => v as u64,
                Option::None => u64::MAX,
            },
    {
        match self {
            Option::Some(v) => v as u64,
            Option::None => u64::MAX,
        }
    }
}

impl AsU64 for Option<u64> {
    fn as_u64(self) -> (r: u64)
        ensures
            r == match self {
                Option::Some(v) => v,
                Option::None => u64::MAX,
            },
    {
        match self {
            Option::Some(v) => v,
            Option::None => u64::MAX,
        }
    }
}

/// The 64-bit word read from the first eight bytes of a nine-byte key,
/// least-significant byte first — the machine order of the targets the
/// engine runs on, fixed here so the contract is one formula on every
/// machine. The ninth byte holds the null tag and is deliberately
/// dropped: the equality check on rows is exact, so the worst a
/// dropped byte can cause is an unbalanced partition.
pub open spec fn spec_key9_to_u64(b: Seq<u8>) -> u64 {
    (b[0] as u64) | ((b[1] as u64) << 8) | ((b[2] as u64) << 16) | ((b[3] as u64) << 24) | ((
    b[4] as u64) << 32) | ((b[5] as u64) << 40) | ((b[6] as u64) << 48) | ((b[7] as u64) << 56)
}

impl AsU64 for [u8; 9] {
    fn as_u64(self) -> (r: u64)
        ensures
            r == spec_key9_to_u64(self@),
    {
        (self[0] as u64) | ((self[1] as u64) << 8) | ((self[2] as u64) << 16) | ((self[3] as u64)
            << 24) | ((self[4] as u64) << 32) | ((self[5] as u64) << 40) | ((self[6] as u64) << 48)
            | ((self[7] as u64) << 56)
    }
}

/// A pass-through hasher for callers that already hold 64-bit keys.
/// It accepts only fixed-width integer writes; there is deliberately
/// no byte-slice write, so misuse is rejected when the host is built.
pub struct IdHasher {
    hash: u64,
}

impl IdHasher {
    pub closed spec fn spec_hash(&self) -> u64 {
        self.hash
    }

    pub fn finish(&self) -> (r: u64)
        ensures
            r == self.spec_hash(),
    {
        self.hash
    }

    pub fn write_u32(&mut self, i: u32)
        ensures
            final(self).spec_hash() == i as u64,
    {
        self.write_u64(i as u64)
    }

    pub fn write_u64(&mut self, i: u64)
        ensures
            final(self).spec_hash() == i,
    {
        self.hash = i;
    }

    pub fn write_i32(&mut self, i: i32)
        ensures
            final(self).spec_hash() == (i as u32) as u64,
    {
        self.write_u32(i as u32)
    }

    pub fn write_i64(&mut self, i: i64)
        ensures
            final(self).spec_hash() == i as u64,
    {
        self.write_u64(i as u64)
    }
}

impl Default for IdHasher {
    fn default() -> (r: Self)
        ensures
            r.spec_hash() == 0,
    {
        IdHasher { hash: 0 }
    }
}

/// The index of a row together with the precomputed fingerprint of
/// that row. Equality of two keys is decided on the grouping columns
/// at the two rows, never on the stored index or fingerprint.
#[derive(Clone, Copy, Debug)]
pub struct IdxHash {
    pub idx: u32,
    /// The fingerprint still feeds a real hash on rehash, so an
    /// identity function must not be used on it.
    pub hash: u64,
}

impl IdxHash {
    #[inline]
    pub fn new(idx: u32, hash: u64) -> (r: Self)
        ensures
            r.idx == idx,
            r.hash == hash,
    {
        IdxHash { idx, hash }
    }
}

/// A string slice together with its precomputed hash; rehashing uses
/// the stored hash so that growing a table never touches the string.
#[derive(Clone, Copy)]
pub struct StrHash<'a> {
    str: Option<&'a str>,
    hash: u64,
}

impl<'a> StrHash<'a> {
    pub closed spec fn spec_str(&self) -> Option<&'a str> {
        self.str
    }

    pub closed spec fn spec_hash(&self) -> u64 {
        self.hash
    }

    pub fn new(s: Option<&'a str>, hash: u64) -> (r: Self)
        ensures
            r.spec_str() == s,
            r.spec_hash() == hash,
    {
        StrHash { str: s, hash }
    }

    /// Equality of the carried strings; the stored hash plays no part.
    pub fn same_str(&self, other: &StrHash<'a>) -> (r: bool)
        ensures
            r == match (self.spec_str(), other.spec_str()) {
                (Option::Some(a), Option::Some(b)) => a@ == b@,
                (Option::None, Option::None) => true,
                _ => false,
            },
    {
        match (self.str, other.str) {
            (Option::Some(a), Option::Some(b)) => str_eq(a, b),
            (Option::None, Option::None) => true,
            _ => false,
        }
    }
}

impl<'a> AsU64 for StrHash<'a> {
    fn as_u64(self) -> (r: u64)
        ensures
            r == self.spec_hash(),
    {
        self.hash
    }
}

/// The group table: one entry per distinct grouping key, in first-seen
/// order, each holding the key's representative row and every row of
/// the group in ascending order.
pub type GroupIndicesTable = Vec<(IdxHash, Vec<u32>)>;

/// The cell of the column named `names[c]`, at row `i`.
pub open spec fn cell_at(
    b: Seq<ColumnView>,
    names: Seq<Seq<char>>,
    c: int,
    i: int,
) -> crate::value::ValueView {
    b[find_column(b, names[c]).unwrap()].values[i]
}

/// Whether rows `i` and `j` agree on every named grouping column.
pub open spec fn rows_agree(b: Seq<ColumnView>, names: Seq<Seq<char>>, i: int, j: int) -> bool {
    forall|c: int|
        0 <= c < names.len() ==> #[trigger] cell_at(b, names, c, i) == cell_at(b, names, c, j)
}

/// Whether some bucket of the table lists the row.
pub open spec fn row_in_table(t: Seq<(IdxHash, Vec<u32>)>, row: u32) -> bool {
    exists|k: int, e: int|
        0 <= k < t.len() && 0 <= e < t[k].1@.len() && #[trigger] t[k].1@[e] == row
}

/// What the group-by kernel promises of its table: buckets are
/// nonempty and led by their representative; rows are in range,
/// ascending within a bucket; two rows share a bucket exactly when
/// they agree on the grouping columns; every row is listed; and
/// buckets stand in first-seen order.
pub open spec fn group_table_ok(
    b: Seq<ColumnView>,
    names: Seq<Seq<char>>,
    t: Seq<(IdxHash, Vec<u32>)>,
    rows: nat,
) -> bool {
    &&& forall|k: int| 0 <= k < t.len() ==> (#[trigger] t[k].1)@.len() > 0
    &&& forall|k: int| 0 <= k < t.len() ==> (#[trigger] t[k].0).idx == t[k].1@[0]
    &&& forall|k: int, e: int|
        0 <= k < t.len() && 0 <= e < t[k].1@.len() ==> (#[trigger] t[k].1@[e] as nat) < rows
    &&& forall|k: int, e1: int, e2: int|
        #![trigger t[k].1@[e1], t[k].1@[e2]]
        0 <= k < t.len() && 0 <= e1 < e2 < t[k].1@.len() ==> t[k].1@[e1] < t[k].1@[e2]
    &&& forall|k: int, e1: int, e2: int|
        #![trigger t[k].1@[e1], t[k].1@[e2]]
        0 <= k < t.len() && 0 <= e1 < t[k].1@.len() && 0 <= e2 < t[k].1@.len() ==> rows_agree(
            b,
            names,
            t[k].1@[e1] as int,
            t[k].1@[e2] as int,
        )
    &&& forall|k1: int, e1: int, k2: int, e2: int|
        #![trigger t[k1].1@[e1], t[k2].1@[e2]]
        0 <= k1 < t.len() && 0 <= k2 < t.len() && k1 != k2 && 0 <= e1 < t[k1].1@.len() && 0 <= e2
            < t[k2].1@.len() ==> !rows_agree(b, names, t[k1].1@[e1] as int, t[k2].1@[e2] as int)
    &&& forall|row: u32| (row as nat) < rows ==> #[trigger] row_in_table(t, row)
    &&& forall|k1: int, k2: int|
        #![trigger t[k1].0, t[k2].0]
        0 <= k1 < k2 < t.len() ==> t[k1].0.idx < t[k2].0.idx
}

/// Whether rows `i` and `j` agree on every column at the resolved
/// offsets.
pub open spec fn rows_agree_at(b: Seq<ColumnView>, offs: Seq<usize>, i: int, j: int) -> bool {
    forall|c: int|
        0 <= c < offs.len() ==> #[trigger] b[offs[c] as int].values[i] == b[offs[c] as int].values[j]
}

/// Decide whether two rows agree on every listed column.
pub fn compare_series_row(
    block: &DataBlock,
    offsets: &Vec<usize>,
    idx_a: usize,
    idx_b: usize,
) -> (r: bool)
    requires
        block.wf(),
        forall|c: int| 0 <= c < offsets@.len() ==> (#[trigger] offsets@[c] as int) < block@.len(),
        idx_a < block.rows(),
        idx_b < block.rows(),
    ensures
        r == rows_agree_at(block@, offsets@, idx_a as int, idx_b as int),
{
    let n = offsets.len();
    let mut c: usize = 0;
    while c < n
        invariant
            0 <= c <= n,
            n == offsets@.len(),
            block.wf(),
            forall|t: int| 0 <= t < n ==> (#[trigger] offsets@[t] as int) < block@.len(),
            idx_a < block.rows(),
            idx_b < block.rows(),
            forall|t: int|
                0 <= t < c ==> #[trigger] block@[offsets@[t] as int].values[idx_a as int]
                    == block@[offsets@[t] as int].values[idx_b as int],
        decreases n - c,
    {
        let off = offsets[c];
        let col = &block.columns[off];
        proof {
            assert(block@[off as int] == block.columns@[off as int]@);
            assert(block@[off as int].values.len() == block.rows());
            assert(col.values.deep_view()[idx_a as int] == col.values@[idx_a as int]@);
            assert(col.values.deep_view()[idx_b as int] == col.values@[idx_b as int]@);
        }
        if !col.values[idx_a].equals(&col.values[idx_b]) {
            return false;
        }
        c += 1;
    }
    true
}

/// When the offsets are exactly the resolved positions of the names,
/// agreement at the offsets is agreement on the names.
proof fn lemma_agree_equiv(
    b: Seq<ColumnView>,
    names: Seq<Seq<char>>,
    offs: Seq<usize>,
    i: int,
    j: int,
)
    requires
        offs.len() == names.len(),
        forall|c: int|
            0 <= c < names.len() ==> #[trigger] find_column(b, names[c]) == Option::Some(
                offs[c] as int,
            ),
    ensures
        rows_agree_at(b, offs, i, j) == rows_agree(b, names, i, j),
{
    if rows_agree_at(b, offs, i, j) {
        assert forall|c: int| 0 <= c < names.len() implies #[trigger] cell_at(b, names, c, i)
            == cell_at(b, names, c, j) by {
            assert(b[offs[c] as int].values[i] == b[offs[c] as int].values[j]);
        }
    }
    if rows_agree(b, names, i, j) {
        assert forall|c: int| 0 <= c < offs.len() implies #[trigger] b[offs[c] as int].values[i]
            == b[offs[c] as int].values[j] by {
            assert(cell_at(b, names, c, i) == cell_at(b, names, c, j));
        }
    }
}

impl DataBlock {
    /// Partition the block's rows by the distinct tuples over the named
    /// columns: each bucket holds, in ascending order, exactly the rows
    /// that agree pairwise on every named column, and the buckets stand
    /// in the order their first rows appear. An unknown name is
    /// reported; an empty name list puts every row into one bucket; an
    /// empty block yields an empty table.
    pub fn group_by_get_indices(block: &DataBlock, column_names: &Vec<String>) -> (r: Result<
        GroupIndicesTable,
        EngineError,
    >)
        requires
            block.wf(),
            block.rows() <= u32::MAX,
        ensures
            match r {
                Ok(table) => {
                    &&& forall|c: int|
                        0 <= c < column_names@.len() ==> #[trigger] find_column(
                            block@,
                            column_names@[c]@,
                        ) is Some
                    &&& group_table_ok(
                        block@,
                        column_names.deep_view(),
                        table@,
                        block.rows(),
                    )
                    &&& (block.rows() == 0 ==> table@.len() == 0)
                    &&& (column_names@.len() == 0 && block.rows() > 0 ==> table@.len() == 1
                        && table@[0].1@ == Seq::new(block.rows(), |i: int| i as u32))
                },
                Err(e) => {
                    &&& e.kind == ErrorKind::UnknownColumn
                    &&& exists|c: int|
                        0 <= c < column_names@.len() && #[trigger] find_column(
                            block@,
                            column_names@[c]@,
                        ) is None
                },
            },
    {
        let ghost names: Seq<Seq<char>> = column_names.deep_view();
        // 1. Resolve the grouping columns.
        let mut offsets: Vec<usize> = Vec::new();
        let mut c: usize = 0;
        while c < column_names.len()
            invariant
                0 <= c <= column_names@.len(),
                names == column_names.deep_view(),
                offsets@.len() == c,
                forall|t: int|
                    0 <= t < c ==> #[trigger] find_column(block@, names[t]) == Option::Some(
                        offsets@[t] as int,
                    ),
            decreases column_names@.len() - c,
        {
            proof {
                assert(names[c as int] == column_names@[c as int]@);
            }
            let off = match block.column_offset_by_name(column_names[c].as_str()) {
                Ok(o) => o,
                Err(e) => {
                    proof {
                        assert(find_column(block@, column_names@[c as int]@) is None);
                    }
                    return Err(e);
                }
            };
            offsets.push(off);
            c += 1;
        }
        proof {
            lemma_find_offsets_in_range(block@, names, offsets@);
        }
        // 2. Build the per-row fingerprints.
        let rows = block.num_rows();
        let state = random_state();
        let mut fingerprints: Vec<u64> = Vec::new();
        let mut row: usize = 0;
        while row < rows
            invariant
                0 <= row <= rows,
                rows == block.rows(),
                block.wf(),
                offsets@.len() == names.len(),
                forall|t: int|
                    0 <= t < names.len() ==> #[trigger] find_column(block@, names[t])
                        == Option::Some(offsets@[t] as int),
                forall|t: int|
                    0 <= t < offsets@.len() ==> (#[trigger] offsets@[t] as int) < block@.len(),
                fingerprints@.len() == row,
            decreases rows - row,
        {
            let mut h: u64 = 0;
            let mut ci: usize = 0;
            while ci < offsets.len()
                invariant
                    0 <= ci <= offsets@.len(),
                    block.wf(),
                    row < block.rows(),
                    forall|t: int|
                        0 <= t < offsets@.len() ==> (#[trigger] offsets@[t] as int) < block@.len(),
                decreases offsets@.len() - ci,
            {
                let off = offsets[ci];
                let col = &block.columns[off];
                proof {
                    assert(block@[off as int] == block.columns@[off as int]@);
                    assert(block@[off as int].values.len() == block.rows());
                }
                let hv = hash_value(&state, &col.values[row]);
                h = if ci == 0 {
                    hv
                } else {
                    boost_hash_combine(h, hv)
                };
                ci += 1;
            }
            fingerprints.push(h);
            row += 1;
        }
        // 3. Make the groups.
        let mut table: GroupIndicesTable = Vec::new();
        let mut row2: usize = 0;
        while row2 < rows
            invariant
                0 <= row2 <= rows,
                rows == block.rows() <= u32::MAX,
                block.wf(),
                names == column_names.deep_view(),
                offsets@.len() == names.len(),
                forall|t: int|
                    0 <= t < names.len() ==> #[trigger] find_column(block@, names[t])
                        == Option::Some(offsets@[t] as int),
                forall|t: int|
                    0 <= t < offsets@.len() ==> (#[trigger] offsets@[t] as int) < block@.len(),
                fingerprints@.len() == rows,
                group_table_ok(block@, names, table@, row2 as nat),
                row2 == 0 ==> table@.len() == 0,
                names.len() == 0 && row2 > 0 ==> table@.len() == 1 && table@[0].1@ == Seq::new(
                    row2 as nat,
                    |i: int| i as u32,
                ),
            decreases rows - row2,
        {
            let mut kf_opt: Option<usize> = Option::None;
            let mut k: usize = 0;
            while k < table.len() && kf_opt.is_none()
                invariant
                    0 <= k <= table@.len(),
                    block.wf(),
                    row2 < block.rows(),
                    offsets@.len() == names.len(),
                    forall|t: int|
                        0 <= t < names.len() ==> #[trigger] find_column(block@, names[t])
                            == Option::Some(offsets@[t] as int),
                    forall|t: int|
                        0 <= t < offsets@.len() ==> (#[trigger] offsets@[t] as int) < block@.len(),
                    group_table_ok(block@, names, table@, row2 as nat),
                    forall|t: int|
                        0 <= t < k ==> !rows_agree(
                            block@,
                            names,
                            (#[trigger] table@[t].0).idx as int,
                            row2 as int,
                        ),
                    match kf_opt {
                        Option::Some(kf) => kf == k && k < table@.len() && rows_agree(
                            block@,
                            names,
                            table@[k as int].0.idx as int,
                            row2 as int,
                        ),
                        Option::None => true,
                    },
                decreases table@.len() - k, (if kf_opt is Some { 0int } else { 1int }),
            {
                let rep = table[k].0.idx as usize;
                proof {
                    assert(table@[k as int].1@.len() > 0);
                    assert((table@[k as int].1@[0] as nat) < row2 as nat);
                }
                let same = compare_series_row(block, &offsets, rep, row2);
                proof {
                    lemma_agree_equiv(block@, names, offsets@, rep as int, row2 as int);
                }
                if same {
                    kf_opt = Option::Some(k);
                } else {
                    k += 1;
                }
            }
            let ghost t0 = table@;
            let ghost nm = names;
            let ghost b = block@;
            let ghost r2 = row2 as u32;
            match kf_opt {
                Option::Some(kf) => {
                    let ghost kk = kf as int;
                    let pair = table.remove(kf);
                    let key = pair.0;
                    let mut bucket = pair.1;
                    proof {
                        assert(key == t0[kk].0);
                        assert(bucket@ == t0[kk].1@);
                    }
                    bucket.push(row2 as u32);
                    table.insert(kf, (key, bucket));
                    proof {
                        let t1 = table@;
                        assert forall|j: int| 0 <= j < t1.len() && j != kk implies t1[j]
                            == t0[j] by {}
                        assert(t1.len() == t0.len());
                        assert(t1[kk].0 == t0[kk].0);
                        assert(t1[kk].1@ == t0[kk].1@.push(r2));
                        lemma_table_after_extend(b, nm, t0, t1, row2 as nat, kk);
                        if nm.len() == 0 && row2 > 0 {
                            assert(t1[0].1@ =~= Seq::new((row2 + 1) as nat, |i: int| i as u32));
                        }
                        if nm.len() == 0 && row2 == 0 {
                            assert(t0.len() == 0);
                            assert(false);
                        }
                    }
                }
                Option::None => {
                    proof {
                        assert(k == t0.len());
                        if nm.len() == 0 {
                            if t0.len() > 0 {
                                assert(rows_agree(b, nm, t0[0].0.idx as int, row2 as int));
                                assert(false);
                            }
                        }
                    }
                    let fp = fingerprints[row2];
                    let mut bucket: Vec<u32> = Vec::new();
                    bucket.push(row2 as u32);
                    table.push((IdxHash::new(row2 as u32, fp), bucket));
                    proof {
                        let t1 = table@;
                        assert(t1.len() == t0.len() + 1);
                        assert forall|j: int| 0 <= j < t0.len() implies t1[j] == t0[j] by {}
                        assert(t1[t0.len() as int].1@ =~= Seq::new(1, |i: int| r2));
                        assert(t1[t0.len() as int].1@[0] == r2);
                        assert(t1[t0.len() as int].0.idx == r2);
                        lemma_table_after_new_bucket(b, nm, t0, t1, row2 as nat);
                        if nm.len() == 0 {
                            assert(t1[0].1@ =~= Seq::new((row2 + 1) as nat, |i: int| i as u32));
                        }
                    }
                }
            }
            row2 += 1;
        }
        proof {
            assert forall|c: int| 0 <= c < column_names@.len() implies #[trigger] find_column(
                block@,
                column_names@[c]@,
            ) is Some by {
                assert(names[c] == column_names@[c]@);
                assert(find_column(block@, names[c]) == Option::Some(offsets@[c] as int));
            }
        }
        Ok(table)
    }
}

/// Agreement on the grouping columns carries over: rows that agree
/// with a common row agree with each other.
proof fn lemma_agree_trans(b: Seq<ColumnView>, nm: Seq<Seq<char>>, i: int, j: int, l: int)
    requires
        rows_agree(b, nm, i, j),
        rows_agree(b, nm, j, l),
    ensures
        rows_agree(b, nm, i, l),
{
    assert forall|c: int| 0 <= c < nm.len() implies #[trigger] cell_at(b, nm, c, i) == cell_at(
        b,
        nm,
        c,
        l,
    ) by {
        assert(cell_at(b, nm, c, i) == cell_at(b, nm, c, j));
        assert(cell_at(b, nm, c, j) == cell_at(b, nm, c, l));
    }
}

/// Agreement is symmetric.
proof fn lemma_agree_sym(b: Seq<ColumnView>, nm: Seq<Seq<char>>, i: int, j: int)
    requires
        rows_agree(b, nm, i, j),
    ensures
        rows_agree(b, nm, j, i),
{
    assert forall|c: int| 0 <= c < nm.len() implies #[trigger] cell_at(b, nm, c, j) == cell_at(
        b,
        nm,
        c,
        i,
    ) by {
        assert(cell_at(b, nm, c, i) == cell_at(b, nm, c, j));
    }
}

/// Appending a matching row to its bucket keeps the table's promises,
/// now over one more processed row.
proof fn lemma_table_after_extend(
    b: Seq<ColumnView>,
    nm: Seq<Seq<char>>,
    t0: Seq<(IdxHash, Vec<u32>)>,
    t1: Seq<(IdxHash, Vec<u32>)>,
    rows0: nat,
    kk: int,
)
    requires
        group_table_ok(b, nm, t0, rows0),
        rows0 <= u32::MAX,
        0 <= kk < t0.len(),
        rows_agree(b, nm, t0[kk].0.idx as int, rows0 as int),
        t1.len() == t0.len(),
        forall|j: int| 0 <= j < t1.len() && j != kk ==> #[trigger] t1[j] == t0[j],
        t1[kk].0 == t0[kk].0,
        t1[kk].1@ == t0[kk].1@.push(rows0 as u32),
    ensures
        group_table_ok(b, nm, t1, rows0 + 1),
{
    let r2: u32 = rows0 as u32;
    let old_len = t0[kk].1@.len() as int;
    let rep = t0[kk].1@[0] as int;
    assert(t0[kk].0.idx == t0[kk].1@[0]);
    // The new row agrees with every member of its bucket.
    assert forall|e: int| #![trigger t0[kk].1@[e]] 0 <= e < old_len implies rows_agree(
        b,
        nm,
        t0[kk].1@[e] as int,
        rows0 as int,
    ) by {
        assert(rows_agree(b, nm, t0[kk].1@[e] as int, t0[kk].1@[0] as int));
        lemma_agree_trans(b, nm, t0[kk].1@[e] as int, rep, rows0 as int);
    }
    // The new row disagrees with every member of every other bucket.
    assert forall|k2: int, e2: int|
        #![trigger t0[k2].1@[e2]]
        0 <= k2 < t0.len() && k2 != kk && 0 <= e2 < t0[k2].1@.len() implies !rows_agree(
        b,
        nm,
        rows0 as int,
        t0[k2].1@[e2] as int,
    ) by {
        let m2 = t0[k2].1@[e2] as int;
        if rows_agree(b, nm, rows0 as int, m2) {
            assert(rows_agree(b, nm, t0[kk].1@[0] as int, rows0 as int));
            lemma_agree_trans(b, nm, rep, rows0 as int, m2);
            assert(!rows_agree(b, nm, t0[kk].1@[0] as int, t0[k2].1@[e2] as int));
            assert(false);
        }
    }
    assert forall|k: int| 0 <= k < t1.len() implies (#[trigger] t1[k].1)@.len() > 0 by {
        if k != kk {
            assert(t1[k] == t0[k]);
        }
    }
    assert forall|k: int| 0 <= k < t1.len() implies (#[trigger] t1[k].0).idx == t1[k].1@[0] by {
        if k != kk {
            assert(t1[k] == t0[k]);
        } else {
            assert(t1[kk].1@[0] == t0[kk].1@[0]);
        }
    }
    assert forall|k: int, e: int|
        0 <= k < t1.len() && 0 <= e < t1[k].1@.len() implies (#[trigger] t1[k].1@[e] as nat) < rows0
        + 1 by {
        if k != kk {
            assert(t1[k] == t0[k]);
            assert((t0[k].1@[e] as nat) < rows0);
        } else if e < old_len {
            assert(t1[kk].1@[e] == t0[kk].1@[e]);
            assert((t0[kk].1@[e] as nat) < rows0);
        } else {
            assert(t1[kk].1@[e] == r2);
        }
    }
    assert forall|k: int, e1: int, e2: int|
        #![trigger t1[k].1@[e1], t1[k].1@[e2]]
        0 <= k < t1.len() && 0 <= e1 < e2 < t1[k].1@.len() implies t1[k].1@[e1] < t1[k].1@[e2] by {
        if k != kk {
            assert(t1[k] == t0[k]);
            assert(t0[k].1@[e1] < t0[k].1@[e2]);
        } else if e2 < old_len {
            assert(t0[kk].1@[e1] < t0[kk].1@[e2]);
        } else {
            assert(t1[kk].1@[e2] == r2);
            assert(t1[kk].1@[e1] == t0[kk].1@[e1]);
            assert((t0[kk].1@[e1] as nat) < rows0);
        }
    }
    assert forall|k: int, e1: int, e2: int|
        #![trigger t1[k].1@[e1], t1[k].1@[e2]]
        0 <= k < t1.len() && 0 <= e1 < t1[k].1@.len() && 0 <= e2 < t1[k].1@.len() implies rows_agree(
        b,
        nm,
        t1[k].1@[e1] as int,
        t1[k].1@[e2] as int,
    ) by {
        if k != kk {
            assert(t1[k] == t0[k]);
            assert(rows_agree(b, nm, t0[k].1@[e1] as int, t0[k].1@[e2] as int));
        } else {
            if e1 < old_len && e2 < old_len {
                assert(rows_agree(b, nm, t0[kk].1@[e1] as int, t0[kk].1@[e2] as int));
            } else if e1 < old_len && e2 == old_len {
                assert(rows_agree(b, nm, t0[kk].1@[e1] as int, rows0 as int));
            } else if e1 == old_len && e2 < old_len {
                assert(rows_agree(b, nm, t0[kk].1@[e2] as int, rows0 as int));
                lemma_agree_sym(b, nm, t0[kk].1@[e2] as int, rows0 as int);
            } else {
                assert(rows_agree(b, nm, rows0 as int, rows0 as int));
            }
        }
    }
    assert forall|k1: int, e1: int, k2: int, e2: int|
        #![trigger t1[k1].1@[e1], t1[k2].1@[e2]]
        0 <= k1 < t1.len() && 0 <= k2 < t1.len() && k1 != k2 && 0 <= e1 < t1[k1].1@.len() && 0 <= e2
            < t1[k2].1@.len() implies !rows_agree(
        b,
        nm,
        t1[k1].1@[e1] as int,
        t1[k2].1@[e2] as int,
    ) by {
        if k1 != kk && k2 != kk {
            assert(t1[k1] == t0[k1]);
            assert(t1[k2] == t0[k2]);
            assert(!rows_agree(b, nm, t0[k1].1@[e1] as int, t0[k2].1@[e2] as int));
        } else if k1 == kk {
            assert(t1[k2] == t0[k2]);
            let m2 = t0[k2].1@[e2] as int;
            if e1 < old_len {
                assert(!rows_agree(b, nm, t0[kk].1@[e1] as int, t0[k2].1@[e2] as int));
            } else {
                assert(t1[kk].1@[e1] == r2);
                assert(!rows_agree(b, nm, rows0 as int, m2));
            }
        } else {
            assert(t1[k1] == t0[k1]);
            let m1 = t0[k1].1@[e1] as int;
            if e2 < old_len {
                assert(!rows_agree(b, nm, t0[k1].1@[e1] as int, t0[kk].1@[e2] as int));
            } else {
                assert(t1[kk].1@[e2] == r2);
                assert(!rows_agree(b, nm, rows0 as int, m1));
                if rows_agree(b, nm, m1, rows0 as int) {
                    lemma_agree_sym(b, nm, m1, rows0 as int);
                    assert(false);
                }
            }
        }
    }
    assert forall|row: u32| (row as nat) < rows0 + 1 implies #[trigger] row_in_table(t1, row) by {
        if (row as nat) < rows0 {
            assert(row_in_table(t0, row));
            let (k, e): (int, int) = choose|k: int, e: int|
                0 <= k < t0.len() && 0 <= e < t0[k].1@.len() && #[trigger] t0[k].1@[e] == row;
            if k != kk {
                assert(t1[k] == t0[k]);
                assert(t1[k].1@[e] == row);
            } else {
                assert(t1[kk].1@[e] == t0[kk].1@[e]);
                assert(t1[kk].1@[e] == row);
            }
        } else {
            assert(t1[kk].1@[old_len] == r2);
            assert(r2 == row);
        }
    }
    assert forall|k1: int, k2: int|
        #![trigger t1[k1].0, t1[k2].0]
        0 <= k1 < k2 < t1.len() implies t1[k1].0.idx < t1[k2].0.idx by {
        assert(t0[k1].0.idx < t0[k2].0.idx);
        if k1 != kk {
            assert(t1[k1] == t0[k1]);
        }
        if k2 != kk {
            assert(t1[k2] == t0[k2]);
        }
    }
}

/// Opening a fresh bucket for a row that matches no bucket keeps the
/// table's promises, now over one more processed row.
proof fn lemma_table_after_new_bucket(
    b: Seq<ColumnView>,
    nm: Seq<Seq<char>>,
    t0: Seq<(IdxHash, Vec<u32>)>,
    t1: Seq<(IdxHash, Vec<u32>)>,
    rows0: nat,
)
    requires
        group_table_ok(b, nm, t0, rows0),
        rows0 <= u32::MAX,
        forall|k: int|
            0 <= k < t0.len() ==> !rows_agree(
                b,
                nm,
                (#[trigger] t0[k].0).idx as int,
                rows0 as int,
            ),
        t1.len() == t0.len() + 1,
        forall|j: int| 0 <= j < t0.len() ==> #[trigger] t1[j] == t0[j],
        t1[t0.len() as int].0.idx == rows0 as u32,
        t1[t0.len() as int].1@.len() == 1,
        t1[t0.len() as int].1@[0] == rows0 as u32,
    ensures
        group_table_ok(b, nm, t1, rows0 + 1),
{
    let r2: u32 = rows0 as u32;
    let kn = t0.len() as int;
    // The new row disagrees with every member of every old bucket.
    assert forall|k2: int, e2: int|
        #![trigger t0[k2].1@[e2]]
        0 <= k2 < t0.len() && 0 <= e2 < t0[k2].1@.len() implies !rows_agree(
        b,
        nm,
        rows0 as int,
        t0[k2].1@[e2] as int,
    ) by {
        let m2 = t0[k2].1@[e2] as int;
        let rep2 = t0[k2].1@[0] as int;
        assert(t0[k2].0.idx == t0[k2].1@[0]);
        if rows_agree(b, nm, rows0 as int, m2) {
            assert(rows_agree(b, nm, t0[k2].1@[e2] as int, t0[k2].1@[0] as int));
            lemma_agree_trans(b, nm, rows0 as int, m2, rep2);
            lemma_agree_sym(b, nm, rows0 as int, rep2);
            assert(!rows_agree(b, nm, t0[k2].0.idx as int, rows0 as int));
            assert(false);
        }
    }
    assert forall|k: int| 0 <= k < t1.len() implies (#[trigger] t1[k].1)@.len() > 0 by {
        if k < kn {
            assert(t1[k] == t0[k]);
        }
    }
    assert forall|k: int| 0 <= k < t1.len() implies (#[trigger] t1[k].0).idx == t1[k].1@[0] by {
        if k < kn {
            assert(t1[k] == t0[k]);
        }
    }
    assert forall|k: int, e: int|
        0 <= k < t1.len() && 0 <= e < t1[k].1@.len() implies (#[trigger] t1[k].1@[e] as nat) < rows0
        + 1 by {
        if k < kn {
            assert(t1[k] == t0[k]);
            assert((t0[k].1@[e] as nat) < rows0);
        }
    }
    assert forall|k: int, e1: int, e2: int|
        #![trigger t1[k].1@[e1], t1[k].1@[e2]]
        0 <= k < t1.len() && 0 <= e1 < e2 < t1[k].1@.len() implies t1[k].1@[e1] < t1[k].1@[e2] by {
        if k < kn {
            assert(t1[k] == t0[k]);
            assert(t0[k].1@[e1] < t0[k].1@[e2]);
        }
    }
    assert forall|k: int, e1: int, e2: int|
        #![trigger t1[k].1@[e1], t1[k].1@[e2]]
        0 <= k < t1.len() && 0 <= e1 < t1[k].1@.len() && 0 <= e2 < t1[k].1@.len() implies rows_agree(
        b,
        nm,
        t1[k].1@[e1] as int,
        t1[k].1@[e2] as int,
    ) by {
        if k < kn {
            assert(t1[k] == t0[k]);
            assert(rows_agree(b, nm, t0[k].1@[e1] as int, t0[k].1@[e2] as int));
        } else {
            assert(rows_agree(b, nm, rows0 as int, rows0 as int));
        }
    }
    assert forall|k1: int, e1: int, k2: int, e2: int|
        #![trigger t1[k1].1@[e1], t1[k2].1@[e2]]
        0 <= k1 < t1.len() && 0 <= k2 < t1.len() && k1 != k2 && 0 <= e1 < t1[k1].1@.len() && 0 <= e2
            < t1[k2].1@.len() implies !rows_agree(
        b,
        nm,
        t1[k1].1@[e1] as int,
        t1[k2].1@[e2] as int,
    ) by {
        if k1 < kn && k2 < kn {
            assert(t1[k1] == t0[k1]);
            assert(t1[k2] == t0[k2]);
            assert(!rows_agree(b, nm, t0[k1].1@[e1] as int, t0[k2].1@[e2] as int));
        } else if k1 == kn {
            assert(t1[k2] == t0[k2]);
            assert(t1[k1].1@[e1] == r2);
            assert(!rows_agree(b, nm, rows0 as int, t0[k2].1@[e2] as int));
        } else {
            assert(t1[k1] == t0[k1]);
            assert(t1[k2].1@[e2] == r2);
            let m1 = t0[k1].1@[e1] as int;
            assert(!rows_agree(b, nm, rows0 as int, m1));
            if rows_agree(b, nm, m1, rows0 as int) {
                lemma_agree_sym(b, nm, m1, rows0 as int);
                assert(false);
            }
        }
    }
    assert forall|row: u32| (row as nat) < rows0 + 1 implies #[trigger] row_in_table(t1, row) by {
        if (row as nat) < rows0 {
            assert(row_in_table(t0, row));
            let (k, e): (int, int) = choose|k: int, e: int|
                0 <= k < t0.len() && 0 <= e < t0[k].1@.len() && #[trigger] t0[k].1@[e] == row;
            assert(t1[k] == t0[k]);
            assert(t1[k].1@[e] == row);
        } else {
            assert(t1[kn].1@[0] == r2);
            assert(r2 == row);
        }
    }
    assert forall|k1: int, k2: int|
        #![trigger t1[k1].0, t1[k2].0]
        0 <= k1 < k2 < t1.len() implies t1[k1].0.idx < t1[k2].0.idx by {
        if k2 < kn {
            assert(t1[k1] == t0[k1]);
            assert(t1[k2] == t0[k2]);
            assert(t0[k1].0.idx < t0[k2].0.idx);
        } else {
            assert(t1[k1] == t0[k1]);
            assert(t0[k1].0.idx == t0[k1].1@[0]);
            assert((t0[k1].1@[0] as nat) < rows0);
        }
    }
}

/// Resolved offsets lie inside the block.
proof fn lemma_find_offsets_in_range(b: Seq<ColumnView>, names: Seq<Seq<char>>, offs: Seq<usize>)
    requires
        offs.len() == names.len(),
        forall|c: int|
            0 <= c < names.len() ==> #[trigger] find_column(b, names[c]) == Option::Some(
                offs[c] as int,
            ),
    ensures
        forall|c: int| 0 <= c < offs.len() ==> (#[trigger] offs[c] as int) < b.len(),
{
    assert forall|c: int| 0 <= c < offs.len() implies (#[trigger] offs[c] as int) < b.len() by {
        assert(find_column(b, names[c]) == Option::Some(offs[c] as int));
        lemma_find_column_in_range(b, names[c]);
    }
}

/// Whatever position the search reports lies inside the block.
pub proof fn lemma_find_column_in_range(b: Seq<ColumnView>, name: Seq<char>)
    ensures
        find_column(b, name) is Some ==> 0 <= find_column(b, name).unwrap() < b.len(),
    decreases b.len(),
{
    if b.len() > 0 {
        lemma_find_column_in_range(b.drop_first(), name);
    }
}

/// Whether the materialized groups carry, per bucket, the key and the
/// sub-block that `take` builds from the bucket's rows.
pub open spec fn groups_match_table(
    b: Seq<ColumnView>,
    g: Seq<(IdxHash, DataBlock)>,
    t: Seq<(IdxHash, Vec<u32>)>,
) -> bool {
    &&& g.len() == t.len()
    &&& forall|k: int|
        0 <= k < g.len() ==> (#[trigger] g[k]).0 == t[k].0 && g[k].1@ == crate::value::take_view(
            b,
            t[k].1@,
        )
}

impl DataBlock {
    /// Group the block's rows by the named columns and materialize each
    /// bucket as a sub-block holding the bucket's rows in order.
    pub fn group_by(block: &DataBlock, column_names: &Vec<String>) -> (r: Result<
        Vec<(IdxHash, DataBlock)>,
        EngineError,
    >)
        requires
            block.wf(),
            block.rows() <= u32::MAX,
        ensures
            match r {
                Ok(groups) => exists|t: Seq<(IdxHash, Vec<u32>)>|
                    #[trigger] group_table_ok(block@, column_names.deep_view(), t, block.rows())
                        && groups_match_table(block@, groups@, t),
                Err(e) => {
                    &&& e.kind == ErrorKind::UnknownColumn
                    &&& exists|c: int|
                        0 <= c < column_names@.len() && #[trigger] find_column(
                            block@,
                            column_names@[c]@,
                        ) is None
                },
            },
    {
        let table = match DataBlock::group_by_get_indices(block, column_names) {
            Ok(t) => t,
            Err(e) => {
                return Err(e);
            }
        };
        let ghost tview = table@;
        let mut groups: Vec<(IdxHash, DataBlock)> = Vec::new();
        let mut k: usize = 0;
        while k < table.len()
            invariant
                0 <= k <= table@.len(),
                block.wf(),
                block.rows() <= u32::MAX,
                table@ == tview,
                group_table_ok(block@, column_names.deep_view(), tview, block.rows()),
                groups@.len() == k,
                forall|t: int|
                    0 <= t < k ==> (#[trigger] groups@[t]).0 == tview[t].0 && groups@[t].1@
                        == crate::value::take_view(block@, tview[t].1@),
            decreases table@.len() - k,
        {
            let key = table[k].0;
            let sub = match DataBlock::block_take_by_indices(block, &table[k].1) {
                Ok(s) => s,
                Err(e) => {
                    proof {
                        assert(false);
                    }
                    return Err(e);
                }
            };
            groups.push((key, sub));
            k += 1;
        }
        proof {
            assert(groups_match_table(block@, groups@, tview));
        }
        Ok(groups)
    }
}

/// Law: concatenating the buckets reproduces every row of the block
/// exactly once — each row number below the row count appears in some
/// bucket, and at exactly one bucket and position.
pub proof fn lemma_group_by_partition(
    b: Seq<ColumnView>,
    names: Seq<Seq<char>>,
    t: Seq<(IdxHash, Vec<u32>)>,
    rows: nat,
)
    requires
        group_table_ok(b, names, t, rows),
    ensures
        forall|row: u32| (row as nat) < rows ==> #[trigger] row_in_table(t, row),
        forall|k1: int, e1: int, k2: int, e2: int|
            #![trigger t[k1].1@[e1], t[k2].1@[e2]]
            0 <= k1 < t.len() && 0 <= k2 < t.len() && 0 <= e1 < t[k1].1@.len() && 0 <= e2
                < t[k2].1@.len() && t[k1].1@[e1] == t[k2].1@[e2] ==> k1 == k2 && e1 == e2,
{
    assert forall|k1: int, e1: int, k2: int, e2: int|
        #![trigger t[k1].1@[e1], t[k2].1@[e2]]
        0 <= k1 < t.len() && 0 <= k2 < t.len() && 0 <= e1 < t[k1].1@.len() && 0 <= e2
            < t[k2].1@.len() && t[k1].1@[e1] == t[k2].1@[e2] implies k1 == k2 && e1 == e2 by {
        if k1 != k2 {
            assert(!rows_agree(b, names, t[k1].1@[e1] as int, t[k2].1@[e2] as int));
            assert(rows_agree(b, names, t[k1].1@[e1] as int, t[k1].1@[e1] as int));
            assert(false);
        } else if e1 < e2 {
            assert(t[k1].1@[e1] < t[k1].1@[e2]);
        } else if e2 < e1 {
            assert(t[k1].1@[e2] < t[k1].1@[e1]);
        }
    }
}

/// Law: two rows lie in the same bucket exactly when they agree on
/// every grouping column.
pub proof fn lemma_same_bucket_iff_agree(
    b: Seq<ColumnView>,
    names: Seq<Seq<char>>,
    t: Seq<(IdxHash, Vec<u32>)>,
    rows: nat,
    i: u32,
    j: u32,
)
    requires
        group_table_ok(b, names, t, rows),
        (i as nat) < rows,
        (j as nat) < rows,
    ensures
        (exists|k: int, e1: int, e2: int|
            0 <= k < t.len() && 0 <= e1 < t[k].1@.len() && 0 <= e2 < t[k].1@.len()
                && #[trigger] t[k].1@[e1] == i && #[trigger] t[k].1@[e2] == j) <==> rows_agree(
            b,
            names,
            i as int,
            j as int,
        ),
{
    if exists|k: int, e1: int, e2: int|
        0 <= k < t.len() && 0 <= e1 < t[k].1@.len() && 0 <= e2 < t[k].1@.len() && #[trigger] t[k].1@[e1]
            == i && #[trigger] t[k].1@[e2] == j {
        let (k, e1, e2): (int, int, int) = choose|k: int, e1: int, e2: int|
            0 <= k < t.len() && 0 <= e1 < t[k].1@.len() && 0 <= e2 < t[k].1@.len()
                && #[trigger] t[k].1@[e1] == i && #[trigger] t[k].1@[e2] == j;
        assert(rows_agree(b, names, t[k].1@[e1] as int, t[k].1@[e2] as int));
    }
    if rows_agree(b, names, i as int, j as int) {
        assert(row_in_table(t, i));
        assert(row_in_table(t, j));
        let (k1, e1): (int, int) = choose|k: int, e: int|
            0 <= k < t.len() && 0 <= e < t[k].1@.len() && #[trigger] t[k].1@[e] == i;
        let (k2, e2): (int, int) = choose|k: int, e: int|
            0 <= k < t.len() && 0 <= e < t[k].1@.len() && #[trigger] t[k].1@[e] == j;
        if k1 != k2 {
            assert(!rows_agree(b, names, t[k1].1@[e1] as int, t[k2].1@[e2] as int));
            assert(false);
        }
        assert(t[k1].1@[e1] == i && t[k1].1@[e2] == j);
    }
}

} // verus!
