//! Putting the definitions of computed columns back into the predicates
//! that compare them with literals, so that those comparisons can be seen.

use crate::literal_constraints::LiteralConstraints;
use crate::mfp::{
    all_hold, extend_by, lemma_eval_reads_below, lemma_extend_by, lemma_reads_below_weaken,
    MapFilterProject, Mfp,
};
use crate::scalar::{
    eval_all, exprs_view, lemma_exprs_view_push, lemma_view_variadic, BinaryFunc, Expr,
    RecursionLimitError, ScalarExpr, RECURSION_LIMIT,
};
use crate::value::Value;
use vstd::prelude::*;

verus! {

impl Expr {
    /// Whether the expression is, or contains, an equality with a literal.
    pub open spec fn contains_literal_equality(self) -> bool
        decreases self,
    {
        self.any_expr_eq_literal().is_some() || match self {
            Expr::CallUnary(_, a) => a.contains_literal_equality(),
            Expr::CallBinary(_, a, b) => a.contains_literal_equality()
                || b.contains_literal_equality(),
            Expr::CallVariadic(_, args) => exists|i: int|
                0 <= i < args.len() && (#[trigger] args[i]).contains_literal_equality(),
            _ => false,
        }
    }

    /// Whether the expression is an equality of column `col` with a literal.
    pub open spec fn is_column_eq_literal(self, col: nat) -> bool {
        match self {
            Expr::CallBinary(BinaryFunc::Eq, a, b) => (*a is Literal && *b == Expr::Column(col))
                || (*b is Literal && *a == Expr::Column(col)),
            _ => false,
        }
    }

    /// Whether the expression is, or contains, an equality of column `col`
    /// with a literal.
    pub open spec fn equates_column_with_literal(self, col: nat) -> bool
        decreases self,
    {
        self.is_column_eq_literal(col) || match self {
            Expr::CallUnary(_, a) => a.equates_column_with_literal(col),
            Expr::CallBinary(_, a, b) => a.equates_column_with_literal(col)
                || b.equates_column_with_literal(col),
            Expr::CallVariadic(_, args) => exists|i: int|
                0 <= i < args.len() && (#[trigger] args[i]).equates_column_with_literal(col),
            _ => false,
        }
    }

    /// The expression with each marked column, among those that `defs`
    /// define from column `arity` on, replaced by its definition.
    pub open spec fn inline(self, marks: Seq<bool>, defs: Seq<Expr>, arity: nat) -> Expr
        decreases self,
    {
        match self {
            Expr::Column(c) => if arity <= c < arity + defs.len() && c - arity < marks.len()
                && marks[c - arity] {
                defs[c - arity]
            } else {
                self
            },
            Expr::Literal(_) => self,
            Expr::CallUnary(func, a) => Expr::CallUnary(
                func,
                Box::new(a.inline(marks, defs, arity)),
            ),
            Expr::CallBinary(func, a, b) => Expr::CallBinary(
                func,
                Box::new(a.inline(marks, defs, arity)),
                Box::new(b.inline(marks, defs, arity)),
            ),
            Expr::CallVariadic(func, args) => Expr::CallVariadic(
                func,
                inline_all(args, marks, defs, arity),
            ),
        }
    }
}

/// Each expression of the sequence with the marked columns replaced by their
/// definitions.
pub open spec fn inline_all(args: Seq<Expr>, marks: Seq<bool>, defs: Seq<Expr>, arity: nat) -> Seq<
    Expr,
>
    decreases args,
{
    Seq::new(
        args.len(),
        |i: int|
            if 0 <= i < args.len() {
                args[i].inline(marks, defs, arity)
            } else {
                Expr::Literal(Value::Null)
            },
    )
}

/// The first `k` expressions, each with the marked columns before it
/// replaced by their definitions, in which the same has been done.
pub open spec fn inlined_prefix(expressions: Seq<Expr>, marks: Seq<bool>, arity: nat, k: nat) -> Seq<
    Expr,
>
    decreases k,
{
    if k == 0 || k > expressions.len() {
        Seq::empty()
    } else {
        let prior = inlined_prefix(expressions, marks, arity, (k - 1) as nat);
        prior.push(expressions[k - 1].inline(marks, prior, arity))
    }
}

/// Whether one of the predicates contains an equality of column `col` with a
/// literal.
pub open spec fn some_equates_column(predicates: Seq<Expr>, col: nat) -> bool {
    exists|p: int|
        0 <= p < predicates.len() && (#[trigger] predicates[p]).equates_column_with_literal(col)
}

impl Mfp {
    /// For each computed column, whether its definition is put back where
    /// the column is read: if it contains an equality with a literal, or a
    /// predicate contains an equality of the column with a literal.
    pub open spec fn should_inline(self) -> Seq<bool> {
        Seq::new(
            self.expressions.len(),
            |i: int|
                self.expressions[i].contains_literal_equality() || some_equates_column(
                    self.predicates,
                    self.input_arity + i as nat,
                ),
        )
    }

    /// The expressions after the marked definitions have been put back into
    /// them.
    pub open spec fn inlined_expressions(self) -> Seq<Expr> {
        inlined_prefix(
            self.expressions,
            self.should_inline(),
            self.input_arity,
            self.expressions.len(),
        )
    }

    /// The operator after `inline_literal_constraints`.
    pub open spec fn with_literal_constraints_inlined(self) -> Mfp {
        Mfp {
            expressions: self.inlined_expressions(),
            predicates: inline_all(
                self.predicates,
                self.should_inline(),
                self.inlined_expressions(),
                self.input_arity,
            ),
            ..self
        }
    }

    /// Whether an expression or a predicate is nested too deeply to be
    /// searched.
    pub open spec fn too_deep_to_inline(self) -> bool {
        ||| exists|i: int|
            0 <= i < self.expressions.len() && (#[trigger] self.expressions[i]).depth()
                > RECURSION_LIMIT
        ||| exists|i: int|
            0 <= i < self.predicates.len() && (#[trigger] self.predicates[i]).depth()
                > RECURSION_LIMIT
    }
}

/// The index of the computed column with the given position.
pub open spec fn computed_column(arity: usize, index: usize) -> nat {
    (arity + index) as nat
}

impl ScalarExpr {
    /// Whether the expression is, or contains, an equality with a literal.
    #[verifier::loop_isolation(false)]
    pub fn contains_literal_equality(&self) -> (r: bool)
        ensures
            r == self@.contains_literal_equality(),
        decreases self,
    {
        match self.as_equality() {
            Some((a, b)) => {
                if a.is_literal() || b.is_literal() {
                    return true;
                }
            },
            None => {},
        }
        match self {
            ScalarExpr::Column(_) => false,
            ScalarExpr::Literal(_) => false,
            ScalarExpr::CallUnary { func: _, expr } => expr.contains_literal_equality(),
            ScalarExpr::CallBinary { func: _, expr1, expr2 } => expr1.contains_literal_equality()
                || expr2.contains_literal_equality(),
            ScalarExpr::CallVariadic { func, exprs } => {
                proof {
                    lemma_view_variadic(*func, *exprs);
                }
                let ghost args = self@->CallVariadic_1;
                assert(args == exprs_view(exprs@));
                let mut i: usize = 0;
                while i < exprs.len()
                    invariant
                        i <= exprs.len(),
                        forall|j: int| 0 <= j < i ==> !(#[trigger] args[j]).contains_literal_equality(),
                    decreases exprs.len() - i,
                {
                    if exprs[i].contains_literal_equality() {
                        assert(args[i as int].contains_literal_equality());
                        assert(self@.contains_literal_equality());
                        return true;
                    }
                    i += 1;
                }
                assert(!self@.contains_literal_equality());
                false
            },
        }
    }

    /// Whether the expression is column `arity + index`.
    fn is_column(&self, arity: usize, index: usize) -> (r: bool)
        ensures
            r == (self@ == Expr::Column(computed_column(arity, index))),
    {
        match self {
            ScalarExpr::Column(c) => *c >= arity && *c - arity == index,
            _ => false,
        }
    }

    /// Whether the expression is, or contains, an equality of column
    /// `arity + index` with a literal.
    #[verifier::loop_isolation(false)]
    pub fn equates_column_with_literal(&self, arity: usize, index: usize) -> (r: bool)
        ensures
            r == self@.equates_column_with_literal(computed_column(arity, index)),
        decreases self,
    {
        match self.as_equality() {
            Some((a, b)) => {
                if (a.is_literal() && b.is_column(arity, index)) || (b.is_literal() && a.is_column(
                    arity,
                    index,
                )) {
                    return true;
                }
            },
            None => {},
        }
        match self {
            ScalarExpr::Column(_) => false,
            ScalarExpr::Literal(_) => false,
            ScalarExpr::CallUnary { func: _, expr } => expr.equates_column_with_literal(
                arity,
                index,
            ),
            ScalarExpr::CallBinary { func: _, expr1, expr2 } => expr1.equates_column_with_literal(
                arity,
                index,
            ) || expr2.equates_column_with_literal(arity, index),
            ScalarExpr::CallVariadic { func, exprs } => {
                proof {
                    lemma_view_variadic(*func, *exprs);
                }
                let ghost args = self@->CallVariadic_1;
                assert(args == exprs_view(exprs@));
                let ghost col = computed_column(arity, index);
                let mut i: usize = 0;
                while i < exprs.len()
                    invariant
                        i <= exprs.len(),
                        forall|j: int|
                            0 <= j < i ==> !(#[trigger] args[j]).equates_column_with_literal(col),
                    decreases exprs.len() - i,
                {
                    if exprs[i].equates_column_with_literal(arity, index) {
                        assert(args[i as int].equates_column_with_literal(col));
                        assert(self@.equates_column_with_literal(col));
                        return true;
                    }
                    i += 1;
                }
                assert(!self@.equates_column_with_literal(col));
                false
            },
        }
    }

    /// The expression with each marked column, among those that `defs`
    /// define from column `arity` on, replaced by its definition.
    #[verifier::loop_isolation(false)]
    pub fn inline(&self, marks: &Vec<bool>, defs: &Vec<ScalarExpr>, arity: usize) -> (r: ScalarExpr)
        ensures
            r@ == self@.inline(marks@, exprs_view(defs@), arity as nat),
        decreases self,
    {
        match self {
            ScalarExpr::Column(c) => {
                if *c >= arity && *c - arity < defs.len() && *c - arity < marks.len() && marks[*c
                    - arity] {
                    defs[*c - arity].clone()
                } else {
                    ScalarExpr::Column(*c)
                }
            },
            ScalarExpr::Literal(v) => ScalarExpr::Literal(*v),
            ScalarExpr::CallUnary { func, expr } => expr.inline(marks, defs, arity).call_unary(
                *func,
            ),
            ScalarExpr::CallBinary { func, expr1, expr2 } => expr1.inline(
                marks,
                defs,
                arity,
            ).call_binary(expr2.inline(marks, defs, arity), *func),
            ScalarExpr::CallVariadic { func, exprs } => {
                proof {
                    lemma_view_variadic(*func, *exprs);
                }
                let mut args: Vec<ScalarExpr> = Vec::new();
                let mut i: usize = 0;
                while i < exprs.len()
                    invariant
                        i <= exprs.len(),
                        args.len() == i,
                        forall|j: int|
                            0 <= j < i ==> args@[j]@ == exprs@[j]@.inline(
                                marks@,
                                exprs_view(defs@),
                                arity as nat,
                            ),
                    decreases exprs.len() - i,
                {
                    args.push(exprs[i].inline(marks, defs, arity));
                    i += 1;
                }
                assert(exprs_view(args@) =~= inline_all(
                    exprs_view(exprs@),
                    marks@,
                    exprs_view(defs@),
                    arity as nat,
                ));
                ScalarExpr::call_variadic(*func, args)
            },
        }
    }
}

/// Whether one of the expressions is nested more deeply than
/// `RECURSION_LIMIT` levels.
fn any_too_deep(exprs: &Vec<ScalarExpr>) -> (r: bool)
    ensures
        r == exists|i: int|
            0 <= i < exprs.len() && (#[trigger] exprs_view(exprs@)[i]).depth() > RECURSION_LIMIT,
{
    let mut i: usize = 0;
    while i < exprs.len()
        invariant
            i <= exprs.len(),
            forall|j: int| 0 <= j < i ==> (#[trigger] exprs_view(exprs@)[j]).depth() <= RECURSION_LIMIT,
        decreases exprs.len() - i,
    {
        if exprs[i].size_within(RECURSION_LIMIT).is_none() {
            assert(exprs_view(exprs@)[i as int].depth() > RECURSION_LIMIT);
            return true;
        }
        i += 1;
    }
    false
}

/// Whether one of the predicates contains an equality of column
/// `arity + index` with a literal.
fn any_equates_column(predicates: &Vec<ScalarExpr>, arity: usize, index: usize) -> (r: bool)
    ensures
        r == some_equates_column(exprs_view(predicates@), computed_column(arity, index)),
{
    let ghost all = exprs_view(predicates@);
    let ghost col = computed_column(arity, index);
    let mut p: usize = 0;
    while p < predicates.len()
        invariant
            p <= predicates.len(),
            all == exprs_view(predicates@),
            col == computed_column(arity, index),
            forall|j: int| 0 <= j < p ==> !(#[trigger] all[j]).equates_column_with_literal(col),
        decreases predicates.len() - p,
    {
        if predicates[p].equates_column_with_literal(arity, index) {
            assert(all[p as int].equates_column_with_literal(col));
            return true;
        }
        p += 1;
    }
    false
}

impl LiteralConstraints {
    /// Puts the definition of a computed column back where the column is
    /// read, for each computed column whose definition contains an equality
    /// with a literal, or that a predicate compares with a literal. Fails,
    /// and leaves the operator as it is, if an expression or a predicate is
    /// nested too deeply.
    pub fn inline_literal_constraints(mfp: &mut MapFilterProject) -> (r: Result<
        (),
        RecursionLimitError,
    >)
        ensures
            match r {
                Ok(_) => {
                    &&& !old(mfp)@.too_deep_to_inline()
                    &&& final(mfp)@ == old(mfp)@.with_literal_constraints_inlined()
                    &&& old(mfp)@.wf() ==> final(mfp)@.wf() && forall|row: Seq<Value>|
                        row.len() == old(mfp)@.input_arity ==> #[trigger] final(mfp)@.accepts(row)
                            == old(mfp)@.accepts(row)
                },
                Err(e) => old(mfp)@.too_deep_to_inline() && *final(mfp) == *old(mfp) && e.limit
                    == RECURSION_LIMIT,
            },
    {
        if any_too_deep(&mfp.expressions) || any_too_deep(&mfp.predicates) {
            proof {
                let e = mfp@.expressions;
                let p = mfp@.predicates;
                if exists|i: int| 0 <= i < e.len() && (#[trigger] e[i]).depth() > RECURSION_LIMIT {
                    let i = choose|i: int|
                        0 <= i < e.len() && (#[trigger] e[i]).depth() > RECURSION_LIMIT;
                    assert(mfp@.expressions[i].depth() > RECURSION_LIMIT);
                } else {
                    let i = choose|i: int|
                        0 <= i < p.len() && (#[trigger] p[i]).depth() > RECURSION_LIMIT;
                    assert(mfp@.predicates[i].depth() > RECURSION_LIMIT);
                }
            }
            return Err(RecursionLimitError { limit: RECURSION_LIMIT });
        }
        let ghost before = mfp@;
        proof {
            if before.wf() {
                lemma_with_literal_constraints_inlined(before);
            }
        }
        let arity = mfp.input_arity;
        // Mark the computed columns whose definitions are to be put back.
        let mut marks: Vec<bool> = Vec::new();
        let mut i: usize = 0;
        while i < mfp.expressions.len()
            invariant
                i <= mfp.expressions.len(),
                *mfp == *old(mfp),
                before == mfp@,
                arity == mfp.input_arity,
                marks@ == before.should_inline().take(i as int),
            decreases mfp.expressions.len() - i,
        {
            let mark = mfp.expressions[i].contains_literal_equality() || any_equates_column(
                &mfp.predicates,
                arity,
                i,
            );
            marks.push(mark);
            assert(marks@ =~= before.should_inline().take(i as int + 1));
            i += 1;
        }
        assert(marks@ =~= before.should_inline());
        // Put them back into the definitions, the earlier ones first.
        let mut expressions: Vec<ScalarExpr> = Vec::new();
        let mut k: usize = 0;
        assert(exprs_view(expressions@) =~= inlined_prefix(
            before.expressions,
            marks@,
            arity as nat,
            0,
        ));
        while k < mfp.expressions.len()
            invariant
                k <= mfp.expressions.len(),
                *mfp == *old(mfp),
                before == mfp@,
                arity == mfp.input_arity,
                marks@ == before.should_inline(),
                exprs_view(expressions@) == inlined_prefix(
                    before.expressions,
                    marks@,
                    arity as nat,
                    k as nat,
                ),
            decreases mfp.expressions.len() - k,
        {
            let ghost prior = expressions@;
            let e = mfp.expressions[k].inline(&marks, &expressions, arity);
            expressions.push(e);
            proof {
                lemma_exprs_view_push(prior, e);
            }
            k += 1;
        }
        // Put them back into the predicates.
        let mut predicates: Vec<ScalarExpr> = Vec::new();
        let mut p: usize = 0;
        while p < mfp.predicates.len()
            invariant
                p <= mfp.predicates.len(),
                *mfp == *old(mfp),
                before == mfp@,
                arity == mfp.input_arity,
                marks@ == before.should_inline(),
                exprs_view(expressions@) == before.inlined_expressions(),
                predicates.len() == p,
                forall|j: int|
                    0 <= j < p ==> predicates@[j]@ == before.predicates[j].inline(
                        marks@,
                        before.inlined_expressions(),
                        arity as nat,
                    ),
            decreases mfp.predicates.len() - p,
        {
            predicates.push(mfp.predicates[p].inline(&marks, &expressions, arity));
            p += 1;
        }
        assert(exprs_view(predicates@) =~= before.with_literal_constraints_inlined().predicates);
        mfp.expressions = expressions;
        mfp.predicates = predicates;
        Ok(())
    }
}

// ---------------------------------------------------------------------------
// What inlining keeps
// ---------------------------------------------------------------------------
/// Whether, on the row, each definition that may be put back has the value
/// of the column that it defines.
pub open spec fn defs_match(marks: Seq<bool>, defs: Seq<Expr>, arity: nat, row: Seq<Value>) -> bool {
    &&& arity + defs.len() <= row.len()
    &&& forall|j: int|
        0 <= j < defs.len() && j < marks.len() && marks[j] ==> (#[trigger] defs[j]).eval(row)
            == row[arity + j]
}

/// Putting back definitions that have the value of their columns keeps the
/// value of an expression.
pub proof fn lemma_inline_eval(
    e: Expr,
    marks: Seq<bool>,
    defs: Seq<Expr>,
    arity: nat,
    row: Seq<Value>,
)
    requires
        defs_match(marks, defs, arity, row),
    ensures
        e.inline(marks, defs, arity).eval(row) == e.eval(row),
    decreases e,
{
    match e {
        Expr::Column(c) => {
            if arity <= c < arity + defs.len() && c - arity < marks.len() && marks[c - arity] {
                assert(defs[c - arity].eval(row) == row[arity + (c - arity)]);
            }
        },
        Expr::Literal(_) => {},
        Expr::CallUnary(_, a) => {
            lemma_inline_eval(*a, marks, defs, arity, row);
        },
        Expr::CallBinary(_, a, b) => {
            lemma_inline_eval(*a, marks, defs, arity, row);
            lemma_inline_eval(*b, marks, defs, arity, row);
        },
        Expr::CallVariadic(_, args) => {
            let out = inline_all(args, marks, defs, arity);
            assert forall|i: int| 0 <= i < args.len() implies out[i].eval(row) == args[i].eval(
                row,
            ) by {
                lemma_inline_eval(args[i], marks, defs, arity, row);
            }
            assert(eval_all(out, row) =~= eval_all(args, row));
        },
    }
}

/// Putting back definitions that read only columns below `n` into an
/// expression that reads only columns below `n` gives such an expression.
pub proof fn lemma_inline_reads(e: Expr, marks: Seq<bool>, defs: Seq<Expr>, arity: nat, n: nat)
    requires
        e.reads_below(n),
        forall|j: int| 0 <= j < defs.len() ==> (#[trigger] defs[j]).reads_below(n),
    ensures
        e.inline(marks, defs, arity).reads_below(n),
    decreases e,
{
    match e {
        Expr::Column(c) => {
            if arity <= c < arity + defs.len() && c - arity < marks.len() && marks[c - arity] {
                assert(defs[c - arity].reads_below(n));
            }
        },
        Expr::Literal(_) => {},
        Expr::CallUnary(_, a) => {
            lemma_inline_reads(*a, marks, defs, arity, n);
        },
        Expr::CallBinary(_, a, b) => {
            lemma_inline_reads(*a, marks, defs, arity, n);
            lemma_inline_reads(*b, marks, defs, arity, n);
        },
        Expr::CallVariadic(_, args) => {
            let out = inline_all(args, marks, defs, arity);
            assert forall|i: int| 0 <= i < out.len() implies (#[trigger] out[i]).reads_below(n) by {
                assert(args[i].reads_below(n));
                lemma_inline_reads(args[i], marks, defs, arity, n);
            }
        },
    }
}

/// The first `k` expressions after inlining define the same columns as
/// before: each reads only the columns before it and has, on the fully
/// extended row, the value of its column.
pub proof fn lemma_inlined_prefix(mfp: Mfp, row: Seq<Value>, k: nat)
    requires
        mfp.wf(),
        row.len() == mfp.input_arity,
        k <= mfp.expressions.len(),
    ensures
        inlined_prefix(mfp.expressions, mfp.should_inline(), mfp.input_arity, k).len() == k,
        forall|j: int|
            0 <= j < k ==> (#[trigger] inlined_prefix(
                mfp.expressions,
                mfp.should_inline(),
                mfp.input_arity,
                k,
            )[j]).reads_below(mfp.input_arity + j as nat),
        forall|j: int|
            0 <= j < k ==> (#[trigger] inlined_prefix(
                mfp.expressions,
                mfp.should_inline(),
                mfp.input_arity,
                k,
            )[j]).eval(mfp.extend(row)) == mfp.extend(row)[mfp.input_arity + j],
        forall|j: int, m: int|
            0 <= j < m <= k ==> #[trigger] inlined_prefix(
                mfp.expressions,
                mfp.should_inline(),
                mfp.input_arity,
                k,
            )[j] == #[trigger] inlined_prefix(
                mfp.expressions,
                mfp.should_inline(),
                mfp.input_arity,
                m as nat,
            )[j],
    decreases k,
{
    let marks = mfp.should_inline();
    let arity = mfp.input_arity;
    let ext = mfp.extend(row);
    lemma_extend_by(mfp.expressions, row);
    if k > 0 {
        let prior = inlined_prefix(mfp.expressions, marks, arity, (k - 1) as nat);
        let out = inlined_prefix(mfp.expressions, marks, arity, k);
        lemma_inlined_prefix(mfp, row, (k - 1) as nat);
        let e = mfp.expressions[k - 1];
        let bound = arity + (k - 1) as nat;
        assert(e.reads_below(bound));
        // the new expression reads only the columns before it
        assert forall|j: int| 0 <= j < prior.len() implies (#[trigger] prior[j]).reads_below(
            bound,
        ) by {
            lemma_reads_below_weaken(prior[j], arity + j as nat, bound);
        }
        lemma_inline_reads(e, marks, prior, arity, bound);
        // and has the value of its column
        assert(defs_match(marks, prior, arity, ext));
        lemma_inline_eval(e, marks, prior, arity, ext);
        crate::mfp::lemma_extend_defines(mfp, row, k - 1);
        assert forall|j: int, m: int| 0 <= j < m <= k implies #[trigger] out[j]
            == #[trigger] inlined_prefix(mfp.expressions, marks, arity, m as nat)[j] by {
            if m < k {
                assert(prior[j] == inlined_prefix(mfp.expressions, marks, arity, m as nat)[j]);
            }
        }
    }
}

/// Computing the columns from expressions that have, on the extended row,
/// the values of the columns gives the same extended row.
pub proof fn lemma_same_extension(a: Seq<Expr>, b: Seq<Expr>, row: Seq<Value>, k: nat)
    requires
        a.len() == b.len(),
        k <= a.len(),
        forall|j: int|
            0 <= j < a.len() ==> (#[trigger] a[j]).reads_below(row.len() + j as nat),
        forall|j: int|
            0 <= j < b.len() ==> (#[trigger] b[j]).reads_below(row.len() + j as nat),
        forall|j: int|
            0 <= j < b.len() ==> (#[trigger] b[j]).eval(extend_by(a, row)) == extend_by(
                a,
                row,
            )[row.len() + j],
    ensures
        extend_by(b.take(k as int), row) == extend_by(a.take(k as int), row),
    decreases k,
{
    lemma_extend_by(a, row);
    if k == 0 {
        assert(a.take(0) =~= b.take(0));
    } else {
        lemma_same_extension(a, b, row, (k - 1) as nat);
        let ak = a.take(k as int);
        let bk = b.take(k as int);
        assert(ak.drop_last() =~= a.take(k - 1));
        assert(bk.drop_last() =~= b.take(k - 1));
        let part = extend_by(a.take(k - 1), row);
        let full = extend_by(a, row);
        lemma_extend_by(a.take(k - 1), row);
        assert forall|i: int| 0 <= i < row.len() + k - 1 implies part[i] == full[i] by {}
        lemma_eval_reads_below(b[k - 1], row.len() + (k - 1) as nat, part, full);
        lemma_eval_reads_below(a[k - 1], row.len() + (k - 1) as nat, part, full);
        assert(full[row.len() + (k - 1)] == a[k - 1].eval(part));
    }
}

/// Inlining in a well-formed operator gives a well-formed operator that
/// extends each input row in the same way and whose predicates hold on the
/// same rows.
pub proof fn lemma_with_literal_constraints_inlined(mfp: Mfp)
    requires
        mfp.wf(),
    ensures
        mfp.with_literal_constraints_inlined().wf(),
        mfp.with_literal_constraints_inlined().predicates.len() == mfp.predicates.len(),
        forall|row: Seq<Value>|
            row.len() == mfp.input_arity ==> #[trigger] mfp.with_literal_constraints_inlined().extend(
                row,
            ) == mfp.extend(row),
        forall|row: Seq<Value>|
            row.len() == mfp.input_arity ==> #[trigger] mfp.with_literal_constraints_inlined().accepts(
                row,
            ) == mfp.accepts(row),
{
    let out = mfp.with_literal_constraints_inlined();
    let marks = mfp.should_inline();
    let arity = mfp.input_arity;
    let n = mfp.expressions.len();
    let defs = mfp.inlined_expressions();
    let bound = arity + n;
    // well-formed
    let any_row = Seq::new(arity, |i: int| Value::Null);
    lemma_inlined_prefix(mfp, any_row, n);
    assert forall|j: int| 0 <= j < defs.len() implies (#[trigger] defs[j]).reads_below(bound) by {
        lemma_reads_below_weaken(defs[j], arity + j as nat, bound);
    }
    assert forall|i: int| 0 <= i < out.predicates.len() implies (
    #[trigger] out.predicates[i]).reads_below(bound) by {
        assert(mfp.predicates[i].reads_below(bound));
        lemma_inline_reads(mfp.predicates[i], marks, defs, arity, bound);
    }
    assert(out.wf());
    assert forall|row: Seq<Value>| row.len() == mfp.input_arity implies #[trigger] out.extend(row)
        == mfp.extend(row) && out.accepts(row) == mfp.accepts(row) by {
        lemma_inlined_prefix(mfp, row, n);
        let ext = mfp.extend(row);
        lemma_same_extension(mfp.expressions, defs, row, n);
        assert(mfp.expressions.take(n as int) =~= mfp.expressions);
        assert(defs.take(n as int) =~= defs);
        lemma_extend_by(mfp.expressions, row);
        assert(defs_match(marks, defs, arity, ext));
        assert forall|i: int| 0 <= i < mfp.predicates.len() implies out.predicates[i].holds(ext)
            == mfp.predicates[i].holds(ext) by {
            lemma_inline_eval(mfp.predicates[i], marks, defs, arity, ext);
        }
        if all_hold(out.predicates, ext) {
            assert forall|i: int| 0 <= i < mfp.predicates.len() implies (
            #[trigger] mfp.predicates[i]).holds(ext) by {
                assert(out.predicates[i].holds(ext));
            }
        }
        if all_hold(mfp.predicates, ext) {
            assert forall|i: int| 0 <= i < out.predicates.len() implies (
            #[trigger] out.predicates[i]).holds(ext) by {
                assert(mfp.predicates[i].holds(ext));
            }
        }
    }
}

} // verus!
