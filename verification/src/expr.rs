//! Scalar expressions as the filter index sees them: constants,
//! column references, function calls and casts.

use vstd::prelude::*;

use crate::value::DataType;
use crate::value::Value;
use crate::value::ValueView;

verus! {

/// A scalar expression over named columns.
pub enum Expr {
    Constant { scalar: Value, data_type: DataType },
    ColumnRef { id: String, data_type: DataType },
    FunctionCall { name: String, args: Vec<Expr>, return_type: DataType },
    Cast { expr: Box<Expr>, dest_type: DataType },
}

/// The number of nodes in the expression tree.
pub open spec fn expr_size(e: Expr) -> nat
    decreases e,
{
    match e {
        Expr::Constant { .. } => 1,
        Expr::ColumnRef { .. } => 1,
        Expr::FunctionCall { args, .. } => 1 + exprs_size(args@),
        Expr::Cast { expr, .. } => 1 + expr_size(*expr),
    }
}

/// The number of nodes in a list of expression trees.
pub open spec fn exprs_size(s: Seq<Expr>) -> nat
    decreases s,
{
    if s.len() == 0 {
        0
    } else {
        expr_size(s[0]) + exprs_size(s.drop_first())
    }
}

/// The constant a bottom-up fold reduces the expression to, if any.
/// Conjunction and disjunction shortcut on an absorbing constant;
/// equality of two constants follows cell equality, with null making
/// the comparison null.
pub open spec fn fold_const(e: Expr) -> Option<ValueView>
    decreases e,
{
    match e {
        Expr::Constant { scalar, .. } => Option::Some(scalar@),
        Expr::ColumnRef { .. } => Option::None,
        Expr::Cast { .. } => Option::None,
        Expr::FunctionCall { name, args, .. } => {
            if name@ == "not"@ && args@.len() == 1 {
                match fold_const(args@[0]) {
                    Option::Some(ValueView::Boolean(b)) => Option::Some(ValueView::Boolean(!b)),
                    _ => Option::None,
                }
            } else if (name@ == "and"@ || name@ == "or"@) && args@.len() == 2 {
                let a = fold_const(args@[0]);
                let b = fold_const(args@[1]);
                let absorbing = ValueView::Boolean(name@ == "or"@);
                if a == Option::Some(absorbing) || b == Option::Some(absorbing) {
                    Option::Some(absorbing)
                } else {
                    match (a, b) {
                        (
                            Option::Some(ValueView::Boolean(x)),
                            Option::Some(ValueView::Boolean(y)),
                        ) => if name@ == "or"@ {
                            Option::Some(ValueView::Boolean(x || y))
                        } else {
                            Option::Some(ValueView::Boolean(x && y))
                        },
                        _ => Option::None,
                    }
                }
            } else if name@ == "eq"@ && args@.len() == 2 {
                match (fold_const(args@[0]), fold_const(args@[1])) {
                    (Option::Some(x), Option::Some(y)) => {
                        if x is Null || y is Null {
                            Option::Some(ValueView::Null)
                        } else {
                            Option::Some(ValueView::Boolean(x == y))
                        }
                    },
                    _ => Option::None,
                }
            } else {
                Option::None
            }
        },
    }
}

/// Fold the expression to a constant, when the fold reaches one.
pub fn fold_const_exec(e: &Expr) -> (r: Option<Value>)
    ensures
        match r {
            Option::Some(v) => fold_const(*e) == Option::Some(v@),
            Option::None => fold_const(*e) is None,
        },
    decreases *e,
{
    match e {
        Expr::Constant { scalar, .. } => Option::Some(scalar.clone_value()),
        Expr::ColumnRef { .. } => Option::None,
        Expr::Cast { .. } => Option::None,
        Expr::FunctionCall { name, args, .. } => {
            let is_not = crate::strutil::str_eq(name.as_str(), "not");
            let is_and = crate::strutil::str_eq(name.as_str(), "and");
            let is_or = crate::strutil::str_eq(name.as_str(), "or");
            let is_eq = crate::strutil::str_eq(name.as_str(), "eq");
            if is_not && args.len() == 1 {
                match fold_const_exec(&args[0]) {
                    Option::Some(Value::Boolean(b)) => Option::Some(Value::Boolean(!b)),
                    _ => Option::None,
                }
            } else if (is_and || is_or) && args.len() == 2 {
                let a = fold_const_exec(&args[0]);
                let b = fold_const_exec(&args[1]);
                let absorbing = is_or;
                let a_absorb = matches!(a, Option::Some(Value::Boolean(x)) if x == absorbing);
                let b_absorb = matches!(b, Option::Some(Value::Boolean(x)) if x == absorbing);
                if a_absorb || b_absorb {
                    Option::Some(Value::Boolean(absorbing))
                } else {
                    match (a, b) {
                        (Option::Some(Value::Boolean(x)), Option::Some(Value::Boolean(y))) => {
                            if is_or {
                                Option::Some(Value::Boolean(x || y))
                            } else {
                                Option::Some(Value::Boolean(x && y))
                            }
                        },
                        _ => Option::None,
                    }
                }
            } else if is_eq && args.len() == 2 {
                let a = fold_const_exec(&args[0]);
                let b = fold_const_exec(&args[1]);
                match (a, b) {
                    (Option::Some(x), Option::Some(y)) => {
                        if x.is_null() || y.is_null() {
                            Option::Some(Value::Null)
                        } else {
                            Option::Some(Value::Boolean(x.equals(&y)))
                        }
                    },
                    _ => Option::None,
                }
            } else {
                Option::None
            }
        },
    }
}

/// Every tree in a list is at most as large as the whole list.
pub proof fn lemma_exprs_size_element(s: Seq<Expr>, k: int)
    requires
        0 <= k < s.len(),
    ensures
        expr_size(s[k]) <= exprs_size(s),
    decreases k,
{
    if k == 0 {
    } else {
        lemma_exprs_size_element(s.drop_first(), k - 1);
        assert(s.drop_first()[k - 1] == s[k]);
    }
}

/// Whether the fold reduces the expression to the literal `false`.
pub open spec fn folds_to_false(e: Expr) -> bool {
    fold_const(e) == Option::Some(ValueView::Boolean(false))
}

/// The value an expression takes at one row of a block: constants and
/// column cells combined through `not`, `and`, `or` and `eq`, with the
/// same shortcuts as the fold. A cast or an unknown function yields
/// nothing.
pub open spec fn eval_row(e: Expr, b: Seq<crate::value::ColumnView>, row: int) -> Option<ValueView>
    decreases e,
{
    match e {
        Expr::Constant { scalar, .. } => Option::Some(scalar@),
        Expr::ColumnRef { id, .. } => match crate::value::find_column(b, id@) {
            Option::Some(c) => if 0 <= row < b[c].values.len() {
                Option::Some(b[c].values[row])
            } else {
                Option::None
            },
            Option::None => Option::None,
        },
        Expr::Cast { .. } => Option::None,
        Expr::FunctionCall { name, args, .. } => {
            if name@ == "not"@ && args@.len() == 1 {
                match eval_row(args@[0], b, row) {
                    Option::Some(ValueView::Boolean(x)) => Option::Some(ValueView::Boolean(!x)),
                    _ => Option::None,
                }
            } else if (name@ == "and"@ || name@ == "or"@) && args@.len() == 2 {
                let a = eval_row(args@[0], b, row);
                let c = eval_row(args@[1], b, row);
                let absorbing = ValueView::Boolean(name@ == "or"@);
                if a == Option::Some(absorbing) || c == Option::Some(absorbing) {
                    Option::Some(absorbing)
                } else {
                    match (a, c) {
                        (
                            Option::Some(ValueView::Boolean(x)),
                            Option::Some(ValueView::Boolean(y)),
                        ) => if name@ == "or"@ {
                            Option::Some(ValueView::Boolean(x || y))
                        } else {
                            Option::Some(ValueView::Boolean(x && y))
                        },
                        _ => Option::None,
                    }
                }
            } else if name@ == "eq"@ && args@.len() == 2 {
                match (eval_row(args@[0], b, row), eval_row(args@[1], b, row)) {
                    (Option::Some(x), Option::Some(y)) => {
                        if x is Null || y is Null {
                            Option::Some(ValueView::Null)
                        } else {
                            Option::Some(ValueView::Boolean(x == y))
                        }
                    },
                    _ => Option::None,
                }
            } else {
                Option::None
            }
        },
    }
}

/// Evaluate the expression at one row of the block.
pub fn eval_row_exec(e: &Expr, block: &crate::value::DataBlock, row: usize) -> (r: Option<Value>)
    requires
        block.wf(),
        row < block.rows(),
    ensures
        match r {
            Option::Some(v) => eval_row(*e, block@, row as int) == Option::Some(v@),
            Option::None => eval_row(*e, block@, row as int) is None,
        },
    decreases *e,
{
    match e {
        Expr::Constant { scalar, .. } => Option::Some(scalar.clone_value()),
        Expr::ColumnRef { id, .. } => {
            match block.column_offset_by_name(id.as_str()) {
                Ok(c) => {
                    proof {
                        crate::group_by::lemma_find_column_in_range(block@, id@);
                        assert(block@[c as int] == block.columns@[c as int]@);
                        assert(block@[c as int].values.len() == block.rows());
                        assert(block.columns@[c as int]@.values[row as int]
                            == block.columns@[c as int].values@[row as int]@);
                    }
                    Option::Some(block.columns[c].values[row].clone_value())
                },
                Err(_) => Option::None,
            }
        },
        Expr::Cast { .. } => Option::None,
        Expr::FunctionCall { name, args, .. } => {
            let is_not = crate::strutil::str_eq(name.as_str(), "not");
            let is_and = crate::strutil::str_eq(name.as_str(), "and");
            let is_or = crate::strutil::str_eq(name.as_str(), "or");
            let is_eq = crate::strutil::str_eq(name.as_str(), "eq");
            if is_not && args.len() == 1 {
                match eval_row_exec(&args[0], block, row) {
                    Option::Some(Value::Boolean(x)) => Option::Some(Value::Boolean(!x)),
                    _ => Option::None,
                }
            } else if (is_and || is_or) && args.len() == 2 {
                let a = eval_row_exec(&args[0], block, row);
                let c = eval_row_exec(&args[1], block, row);
                let absorbing = is_or;
                let a_absorb = matches!(a, Option::Some(Value::Boolean(x)) if x == absorbing);
                let c_absorb = matches!(c, Option::Some(Value::Boolean(x)) if x == absorbing);
                if a_absorb || c_absorb {
                    Option::Some(Value::Boolean(absorbing))
                } else {
                    match (a, c) {
                        (Option::Some(Value::Boolean(x)), Option::Some(Value::Boolean(y))) => {
                            if is_or {
                                Option::Some(Value::Boolean(x || y))
                            } else {
                                Option::Some(Value::Boolean(x && y))
                            }
                        },
                        _ => Option::None,
                    }
                }
            } else if is_eq && args.len() == 2 {
                let a = eval_row_exec(&args[0], block, row);
                let c = eval_row_exec(&args[1], block, row);
                match (a, c) {
                    (Option::Some(x), Option::Some(y)) => {
                        if x.is_null() || y.is_null() {
                            Option::Some(Value::Null)
                        } else {
                            Option::Some(Value::Boolean(x.equals(&y)))
                        }
                    },
                    _ => Option::None,
                }
            } else {
                Option::None
            }
        },
    }
}

/// Whether an evaluation outcome is boolean-shaped: nothing, a null,
/// or a boolean — the only outcomes the logical connectives produce.
pub open spec fn bool_like(z: Option<ValueView>) -> bool {
    match z {
        Option::None => true,
        Option::Some(v) => v is Boolean || v is Null,
    }
}

/// The fold is sound for row evaluation: an expression the fold
/// reduces to a constant evaluates to that constant at every row of
/// every block — the two functions take the same shortcuts.
pub proof fn lemma_fold_agrees(e: Expr, b: Seq<crate::value::ColumnView>, row: int)
    requires
        fold_const(e) is Some,
    ensures
        eval_row(e, b, row) == fold_const(e),
    decreases e,
{
    match e {
        Expr::Constant { .. } => {},
        Expr::ColumnRef { .. } => {},
        Expr::Cast { .. } => {},
        Expr::FunctionCall { name, args, .. } => {
            if name@ == "not"@ && args@.len() == 1 {
                match fold_const(args@[0]) {
                    Option::Some(ValueView::Boolean(x)) => {
                        lemma_fold_agrees(args@[0], b, row);
                    },
                    _ => {},
                }
            } else if (name@ == "and"@ || name@ == "or"@) && args@.len() == 2 {
                let a = fold_const(args@[0]);
                let c = fold_const(args@[1]);
                let absorbing = ValueView::Boolean(name@ == "or"@);
                if a == Option::Some(absorbing) {
                    lemma_fold_agrees(args@[0], b, row);
                } else if c == Option::Some(absorbing) {
                    lemma_fold_agrees(args@[1], b, row);
                } else {
                    match (a, c) {
                        (
                            Option::Some(ValueView::Boolean(x)),
                            Option::Some(ValueView::Boolean(y)),
                        ) => {
                            lemma_fold_agrees(args@[0], b, row);
                            lemma_fold_agrees(args@[1], b, row);
                        },
                        _ => {},
                    }
                }
            } else if name@ == "eq"@ && args@.len() == 2 {
                match (fold_const(args@[0]), fold_const(args@[1])) {
                    (Option::Some(x), Option::Some(y)) => {
                        lemma_fold_agrees(args@[0], b, row);
                        lemma_fold_agrees(args@[1], b, row);
                    },
                    _ => {},
                }
            } else {
            }
        },
    }
}

} // verus!
