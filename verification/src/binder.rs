//! The pure core of the delete binder: collecting the columns a
//! predicate mentions, and resolving them against a table schema into
//! a projection.

use vstd::prelude::*;
use vstd::string::StringExecFns;

use crate::bloom::TableSchema;
use crate::bloom::find_field;
use crate::error::EngineError;
use crate::error::ErrorKind;
use crate::expr::Expr;
use crate::strutil::str_eq;
use crate::value::clone_string;

verus! {

/// The names of every column the expression mentions, in visiting
/// order.
pub open spec fn expr_columns(e: Expr) -> Seq<Seq<char>>
    decreases e,
{
    match e {
        Expr::Constant { .. } => Seq::empty(),
        Expr::ColumnRef { id, .. } => seq![id@],
        Expr::Cast { expr, .. } => expr_columns(*expr),
        Expr::FunctionCall { args, .. } => expr_columns_list(args@),
    }
}

/// The names collected over a list of expressions.
pub open spec fn expr_columns_list(s: Seq<Expr>) -> Seq<Seq<char>>
    decreases s,
{
    if s.len() == 0 {
        Seq::empty()
    } else {
        expr_columns(s[0]) + expr_columns_list(s.drop_first())
    }
}

/// Collects the columns a delete's predicate pushes down.
pub struct DeleteCollectPushDowns {}

impl DeleteCollectPushDowns {
    /// Record the column a single node names, unless it is already
    /// recorded; any other node records nothing.
    pub fn visit_expr(expr: &Expr, require_columns: &mut Vec<String>) -> (r: Result<
        (),
        EngineError,
    >)
        ensures
            r is Ok,
            match *expr {
                Expr::ColumnRef { id, .. } => {
                    if old(require_columns).deep_view().contains(id@) {
                        final(require_columns).deep_view() == old(require_columns).deep_view()
                    } else {
                        final(require_columns).deep_view() == old(
                            require_columns,
                        ).deep_view().push(id@)
                    }
                },
                _ => final(require_columns).deep_view() == old(require_columns).deep_view(),
            },
    {
        if let Expr::ColumnRef { id, .. } = expr {
            if !contains_name(require_columns, id.as_str()) {
                let ghost dv0 = require_columns.deep_view();
                require_columns.push(clone_string(id));
                proof {
                    assert forall|t: int|
                        0 <= t < require_columns.deep_view().len() implies #[trigger] require_columns.deep_view()[t]
                        == dv0.push(id@)[t] by {
                        assert(require_columns.deep_view()[t] == require_columns@[t]@);
                    }
                    assert(require_columns.deep_view() =~~= dv0.push(id@));
                }
            }
        }
        Ok(())
    }

    /// Walk the whole predicate, recording every column it mentions.
    /// Recorded names stay in place, nothing else is added, and a
    /// duplicate-free record stays duplicate-free.
    #[verifier::loop_isolation(false)]
    pub fn visit_filter(predicate: &Expr, data: &mut Vec<String>) -> (r: Result<(), EngineError>)
        ensures
            r is Ok,
            final(data).deep_view().len() >= old(data).deep_view().len(),
            forall|t: int|
                0 <= t < old(data).deep_view().len() ==> #[trigger] final(data).deep_view()[t]
                    == old(data).deep_view()[t],
            forall|c: Seq<char>|
                #[trigger] final(data).deep_view().contains(c) <==> (old(
                    data,
                ).deep_view().contains(c) || expr_columns(*predicate).contains(c)),
            old(data).deep_view().no_duplicates() ==> final(data).deep_view().no_duplicates(),
        decreases crate::expr::expr_size(*predicate),
    {
        match predicate {
            Expr::ColumnRef { id, .. } => {
                let rr = Self::visit_expr(predicate, data);
                proof {
                    lemma_push_membership(old(data).deep_view(), data.deep_view(), id@);
                    assert(expr_columns(*predicate) =~= seq![id@]);
                    assert(expr_columns(*predicate)[0] == id@);
                    assert(expr_columns(*predicate).contains(id@));
                    assert forall|c: Seq<char>|
                        expr_columns(*predicate).contains(c) implies c == id@ by {
                        let w = choose|w: int|
                            0 <= w < expr_columns(*predicate).len()
                                && #[trigger] expr_columns(*predicate)[w] == c;
                    }
                }
                rr
            },
            Expr::Constant { .. } => Ok(()),
            Expr::Cast { expr, .. } => Self::visit_filter(expr, data),
            Expr::FunctionCall { name, args, return_type } => {
                let mut j: usize = 0;
                while j < args.len()
                    invariant
                        0 <= j <= args@.len(),
                        data.deep_view().len() >= old(data).deep_view().len(),
                        forall|t: int|
                            0 <= t < old(data).deep_view().len()
                                ==> #[trigger] data.deep_view()[t] == old(data).deep_view()[t],
                        forall|c: Seq<char>|
                            #[trigger] data.deep_view().contains(c) <==> (old(
                                data,
                            ).deep_view().contains(c) || expr_columns_list(
                                args@.take(j as int),
                            ).contains(c)),
                        old(data).deep_view().no_duplicates()
                            ==> data.deep_view().no_duplicates(),
                    decreases args@.len() - j,
                {
                    proof {
                        assert(crate::expr::expr_size(*predicate) == 1 + crate::expr::exprs_size(
                            args@,
                        ));
                        crate::expr::lemma_exprs_size_element(args@, j as int);
                    }
                    let ghost before = data.deep_view();
                    let rr = Self::visit_filter(&args[j], data);
                    proof {
                        lemma_expr_columns_list_take_step(args@, j as int);
                        assert forall|c: Seq<char>|
                            #[trigger] data.deep_view().contains(c) <==> (old(
                                data,
                            ).deep_view().contains(c) || expr_columns_list(
                                args@.take(j as int + 1),
                            ).contains(c)) by {
                            lemma_concat_contains(
                                expr_columns_list(args@.take(j as int)),
                                expr_columns(args@[j as int]),
                                c,
                            );
                        }
                    }
                    j += 1;
                }
                proof {
                    assert(args@.take(args@.len() as int) =~= args@);
                    assert(expr_columns(*predicate) == expr_columns_list(args@));
                }
                Ok(())
            },
        }
    }
}

/// Membership after an optional push: the pushed name and the old
/// names, nothing else.
proof fn lemma_push_membership(before: Seq<Seq<char>>, after: Seq<Seq<char>>, id: Seq<char>)
    requires
        after == before || after == before.push(id),
        after == before ==> before.contains(id),
        after == before.push(id) ==> !before.contains(id),
    ensures
        forall|c: Seq<char>| #[trigger] after.contains(c) <==> (before.contains(c) || c == id),
        before.no_duplicates() ==> after.no_duplicates(),
{
    if after == before {
    } else {
        assert forall|c: Seq<char>| #[trigger] after.contains(c) implies (before.contains(c) || c
            == id) by {
            let w = choose|w: int| 0 <= w < after.len() && #[trigger] after[w] == c;
            if w < before.len() {
                assert(before[w] == c);
            }
        }
        assert forall|c: Seq<char>| (before.contains(c) || c == id) implies #[trigger] after.contains(
            c,
        ) by {
            if before.contains(c) {
                let w = choose|w: int| 0 <= w < before.len() && #[trigger] before[w] == c;
                assert(after[w] == c);
            } else {
                assert(after[before.len() as int] == id);
            }
        }
        if before.no_duplicates() && !before.contains(id) {
            assert forall|i: int, t: int| 0 <= i < t < after.len() implies after[i] != after[t] by {
                if t < before.len() {
                    assert(before[i] != before[t]);
                } else {
                    if after[i] == id {
                        assert(before[i] == id);
                        assert(before.contains(id));
                    }
                }
            }
        }
    }
}

/// A name lies in a concatenation exactly when it lies in a part.
proof fn lemma_concat_contains(a: Seq<Seq<char>>, b: Seq<Seq<char>>, c: Seq<char>)
    ensures
        (a + b).contains(c) <==> (a.contains(c) || b.contains(c)),
{
    if (a + b).contains(c) {
        let w = choose|w: int| 0 <= w < (a + b).len() && #[trigger] (a + b)[w] == c;
        if w < a.len() {
            assert(a[w] == c);
        } else {
            assert(b[w - a.len()] == c);
        }
    }
    if a.contains(c) {
        let w = choose|w: int| 0 <= w < a.len() && #[trigger] a[w] == c;
        assert((a + b)[w] == c);
    }
    if b.contains(c) {
        let w = choose|w: int| 0 <= w < b.len() && #[trigger] b[w] == c;
        assert((a + b)[a.len() + w] == c);
    }
}

/// Collecting over one more expression appends its names.
proof fn lemma_expr_columns_list_take_step(s: Seq<Expr>, j: int)
    requires
        0 <= j < s.len(),
    ensures
        expr_columns_list(s.take(j + 1)) == expr_columns_list(s.take(j)) + expr_columns(s[j]),
{
    lemma_expr_columns_list_snoc(s.take(j + 1));
    assert(s.take(j + 1).drop_last() =~= s.take(j));
    assert(s.take(j + 1).last() == s[j]);
}

/// Collecting over a list visits the last expression after the rest.
proof fn lemma_expr_columns_list_snoc(s: Seq<Expr>)
    requires
        s.len() > 0,
    ensures
        expr_columns_list(s) == expr_columns_list(s.drop_last()) + expr_columns(s.last()),
    decreases s,
{
    if s.len() == 1 {
        assert(s.drop_first() =~= Seq::<Expr>::empty());
        assert(s.drop_last() =~= Seq::<Expr>::empty());
        assert(expr_columns_list(Seq::<Expr>::empty()) =~~= Seq::<Seq<char>>::empty());
        assert(expr_columns_list(s) =~~= expr_columns(s[0]));
        assert(expr_columns_list(s) =~~= expr_columns_list(s.drop_last()) + expr_columns(s.last()));
    } else {
        lemma_expr_columns_list_snoc(s.drop_first());
        assert(s.drop_first().drop_last() =~= s.drop_last().drop_first());
        assert(s.drop_first().last() == s.last());
        assert(s.drop_last()[0] == s[0]);
        assert(s.drop_last().len() > 0);
        assert(expr_columns_list(s.drop_last()) == expr_columns(s[0]) + expr_columns_list(
            s.drop_last().drop_first(),
        ));
        assert(expr_columns_list(s) =~~= expr_columns_list(s.drop_last()) + expr_columns(s.last()));
    }
}

/// Whether the record lists the name.
pub fn contains_name(v: &Vec<String>, s: &str) -> (r: bool)
    ensures
        r == v.deep_view().contains(s@),
{
    let mut j: usize = 0;
    while j < v.len()
        invariant
            0 <= j <= v@.len(),
            forall|t: int| 0 <= t < j ==> (#[trigger] v@[t])@ != s@,
        decreases v@.len() - j,
    {
        if str_eq(v[j].as_str(), s) {
            proof {
                assert(v.deep_view()[j as int] == v@[j as int]@);
            }
            return true;
        }
        j += 1;
    }
    proof {
        if v.deep_view().contains(s@) {
            let w = choose|w: int| 0 <= w < v.deep_view().len() && #[trigger] v.deep_view()[w] == s@;
            assert(v.deep_view()[w] == v@[w]@);
            assert(false);
        }
    }
    false
}

/// Resolve the required columns against the table schema into a
/// projection of field positions; an absent column is reported.
pub fn resolve_projection(schema: &TableSchema, require_columns: &Vec<String>) -> (r: Result<
    Vec<usize>,
    EngineError,
>)
    ensures
        match r {
            Ok(proj) => {
                &&& proj@.len() == require_columns@.len()
                &&& forall|k: int|
                    0 <= k < proj@.len() ==> find_field(schema@, require_columns@[k]@)
                        == Option::Some(#[trigger] proj@[k] as int)
            },
            Err(e) => {
                &&& e.kind == ErrorKind::UnknownColumn
                &&& exists|k: int|
                    0 <= k < require_columns@.len() && find_field(
                        schema@,
                        (#[trigger] require_columns@[k])@,
                    ) is None
            },
        },
{
    let mut proj: Vec<usize> = Vec::new();
    let mut k: usize = 0;
    while k < require_columns.len()
        invariant
            0 <= k <= require_columns@.len(),
            proj@.len() == k,
            forall|t: int|
                0 <= t < k ==> find_field(schema@, require_columns@[t]@) == Option::Some(
                    #[trigger] proj@[t] as int,
                ),
        decreases require_columns@.len() - k,
    {
        match schema.index_of(require_columns[k].as_str()) {
            Ok(idx) => {
                proj.push(idx);
            },
            Err(_) => {
                return Err(EngineError::unknown_column(String::from_str("Column not found")));
            },
        }
        k += 1;
    }
    Ok(proj)
}

} // verus!