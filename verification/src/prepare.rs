//! Bringing the predicates of an operator into the form of one disjunction
//! of conjunctions, as far as a bound on its size allows.

use crate::contradiction_sound::{lemma_disjuncts_hold, some_holds};
use crate::literal_constraints::LiteralConstraints;
use crate::mfp::{all_hold, MapFilterProject, Mfp};
use crate::normalize_sound::{
    lemma_and_holds, lemma_distribute_eval, lemma_distribute_reads, lemma_flatten_eval,
    lemma_flatten_reads, lemma_or_holds,
};
use crate::scalar::{
    clone_exprs, exprs_view, Expr, RecursionLimitError, ScalarExpr, VariadicFunc, RECURSION_LIMIT,
};
use crate::value::Value;
use vstd::prelude::*;

verus! {

/// The number of nodes beyond which a predicate is not expanded further.
pub const DNF_SIZE_CAP: usize = 1000;

/// The number of rounds of expansion after which a predicate is left as it
/// is, whatever its size.
pub const DNF_ROUND_LIMIT: usize = 1000;

/// How the expansion of a predicate ends.
pub ghost enum Normalized {
    /// The predicate is nested too deeply to be measured.
    TooDeep,
    /// The predicate grew beyond the cap, or the rounds ran out; the
    /// expansion so far is kept.
    Stopped(Expr),
    /// A round changed nothing: this is a disjunction of conjunctions.
    Done(Expr),
}

/// One round of expansion: `And` is distributed over `Or` at every node, and
/// then nested calls of `And` and of `Or` are merged.
pub open spec fn normalize_round(p: Expr) -> Expr {
    p.distribute().flatten()
}

/// The result of expanding `p`, one round after the other, for at most
/// `rounds` more rounds after the first.
pub open spec fn normalize_rounds(p: Expr, rounds: nat) -> Normalized
    decreases rounds,
{
    if p.depth() > RECURSION_LIMIT {
        Normalized::TooDeep
    } else if p.size() > DNF_SIZE_CAP {
        Normalized::Stopped(p)
    } else if normalize_round(p) == p {
        Normalized::Done(p)
    } else if rounds == 0 {
        Normalized::Stopped(normalize_round(p))
    } else {
        normalize_rounds(normalize_round(p), (rounds - 1) as nat)
    }
}

/// The result of expanding the predicate `p`.
pub open spec fn normalize(p: Expr) -> Normalized {
    normalize_rounds(p, DNF_ROUND_LIMIT as nat)
}

impl Normalized {
    /// The predicate that the expansion ended with; the predicate `p` that
    /// it began with if it could not be measured.
    pub open spec fn or_else(self, p: Expr) -> Expr {
        match self {
            Normalized::TooDeep => p,
            Normalized::Stopped(q) => q,
            Normalized::Done(q) => q,
        }
    }
}

/// The expression itself if it is a call of `And`, else the call of `And`
/// on the expression alone.
pub open spec fn as_conjunction(e: Expr) -> Expr {
    if e matches Expr::CallVariadic(VariadicFunc::And, _) {
        e
    } else {
        Expr::CallVariadic(VariadicFunc::And, seq![e])
    }
}

/// Each of the expressions as a conjunction.
pub open spec fn conjunctions(args: Seq<Expr>) -> Seq<Expr> {
    Seq::new(args.len(), |i: int| as_conjunction(args[i]))
}

impl Mfp {
    /// The operator with the conjunction of its predicates as its only
    /// predicate.
    pub open spec fn and_of_predicates(self) -> Mfp {
        self.with_predicate(Expr::CallVariadic(VariadicFunc::And, self.predicates))
    }

    /// Whether a predicate is nested too deeply to be expanded.
    pub open spec fn too_deep_to_normalize(self) -> bool {
        exists|i: int|
            0 <= i < self.predicates.len() && normalize(#[trigger] self.predicates[i])
                == Normalized::TooDeep
    }

    /// Whether the expansion of every predicate ends at a disjunction of
    /// conjunctions.
    pub open spec fn normalizes_fully(self) -> bool {
        forall|i: int|
            0 <= i < self.predicates.len() ==> normalize(
                #[trigger] self.predicates[i],
            ) is Done
    }

    /// The operator with each predicate expanded.
    pub open spec fn normalized(self) -> Mfp {
        Mfp {
            predicates: Seq::new(
                self.predicates.len(),
                |i: int| normalize(self.predicates[i]).or_else(self.predicates[i]),
            ),
            ..self
        }
    }

    /// The operator with each branch of its predicate made a conjunction.
    pub open spec fn unary_and(self) -> Mfp {
        if conjunctions(self.or_args()) == self.or_args() {
            self
        } else {
            self.with_predicate(Expr::CallVariadic(VariadicFunc::Or, conjunctions(self.or_args())))
        }
    }
}

/// Expands the predicate `p`; reports with the result whether the expansion
/// came to its end.
pub fn normalize_predicate(p: &ScalarExpr) -> (r: Result<(ScalarExpr, bool), RecursionLimitError>)
    ensures
        match r {
            Ok((q, complete)) => normalize(p@) == if complete {
                Normalized::Done(q@)
            } else {
                Normalized::Stopped(q@)
            },
            Err(e) => normalize(p@) == Normalized::TooDeep && e.limit == RECURSION_LIMIT,
        },
{
    let mut cur = p.clone();
    let mut rounds: usize = DNF_ROUND_LIMIT;
    loop
        invariant
            normalize(p@) == normalize_rounds(cur@, rounds as nat),
        decreases rounds,
    {
        let size = match cur.size() {
            Ok(n) => n,
            Err(e) => {
                return Err(e);
            },
        };
        if size > DNF_SIZE_CAP {
            return Ok((cur, false));
        }
        let next = cur.distribute().flatten();
        if next.equals(&cur) {
            return Ok((cur, true));
        }
        if rounds == 0 {
            return Ok((next, false));
        }
        cur = next;
        rounds -= 1;
    }
}

impl LiteralConstraints {
    /// Replaces the predicates, which are read as a conjunction, by the one
    /// predicate that is their conjunction.
    pub fn list_of_predicates_to_and_of_predicates(mfp: &mut MapFilterProject)
        ensures
            final(mfp)@ == old(mfp)@.and_of_predicates(),
            forall|row: Seq<Value>|
                #[trigger] all_hold(final(mfp)@.predicates, row) == all_hold(
                    old(mfp)@.predicates,
                    row,
                ),
    {
        proof {
            lemma_and_of_predicates(mfp@);
        }
        let conjuncts = clone_exprs(&mfp.predicates);
        let predicate = ScalarExpr::call_variadic(VariadicFunc::And, conjuncts);
        let mut predicates: Vec<ScalarExpr> = Vec::new();
        predicates.push(predicate);
        assert(exprs_view(predicates@) =~= seq![predicate@]);
        mfp.predicates = predicates;
    }

    /// Expands each predicate towards a disjunction of conjunctions, by
    /// distributing `And` over `Or` and merging nested calls until nothing
    /// changes, the predicate grows beyond `DNF_SIZE_CAP` nodes, or
    /// `DNF_ROUND_LIMIT` rounds have followed the first. Returns whether
    /// every expansion came to its end. Fails, and leaves the operator as it
    /// is, if a predicate is nested too deeply.
    pub fn distribute_and_over_or(mfp: &mut MapFilterProject) -> (r: Result<
        bool,
        RecursionLimitError,
    >)
        ensures
            match r {
                Ok(complete) => {
                    &&& !old(mfp)@.too_deep_to_normalize()
                    &&& final(mfp)@ == old(mfp)@.normalized()
                    &&& complete == old(mfp)@.normalizes_fully()
                    &&& forall|row: Seq<Value>|
                        #[trigger] all_hold(final(mfp)@.predicates, row) == all_hold(
                            old(mfp)@.predicates,
                            row,
                        )
                },
                Err(e) => {
                    &&& old(mfp)@.too_deep_to_normalize()
                    &&& *final(mfp) == *old(mfp)
                    &&& e.limit == RECURSION_LIMIT
                },
            },
    {
        proof {
            lemma_normalized(mfp@);
        }
        let ghost before = mfp@.predicates;
        let mut predicates: Vec<ScalarExpr> = Vec::new();
        let mut complete = true;
        let mut i: usize = 0;
        while i < mfp.predicates.len()
            invariant
                i <= mfp.predicates.len(),
                *mfp == *old(mfp),
                before == mfp@.predicates,
                predicates.len() == i,
                forall|j: int|
                    0 <= j < i ==> normalize(#[trigger] before[j]) != Normalized::TooDeep
                        && predicates@[j]@ == normalize(before[j]).or_else(before[j]),
                complete == forall|j: int| 0 <= j < i ==> normalize(#[trigger] before[j]) is Done,
            decreases mfp.predicates.len() - i,
        {
            match normalize_predicate(&mfp.predicates[i]) {
                Ok((q, done)) => {
                    predicates.push(q);
                    complete = complete && done;
                },
                Err(e) => {
                    assert(normalize(before[i as int]) == Normalized::TooDeep);
                    return Err(e);
                },
            }
            i += 1;
        }
        assert(exprs_view(predicates@) =~= mfp@.normalized().predicates);
        mfp.predicates = predicates;
        Ok(complete)
    }

    /// Wraps each branch of the top-level `Or` that is not a call of `And`
    /// in a call of `And` with that one argument.
    pub fn unary_and(mfp: &mut MapFilterProject)
        requires
            old(mfp)@.predicates.len() == 1,
        ensures
            final(mfp)@ == old(mfp)@.unary_and(),
            forall|row: Seq<Value>|
                #[trigger] all_hold(final(mfp)@.predicates, row) == all_hold(
                    old(mfp)@.predicates,
                    row,
                ),
    {
        proof {
            lemma_unary_and(mfp@);
        }
        let or_args = Self::get_or_args(mfp);
        let mut wrapped: Vec<ScalarExpr> = Vec::new();
        let mut changed = false;
        let mut i: usize = 0;
        while i < or_args.len()
            invariant
                i <= or_args.len(),
                wrapped.len() == i,
                forall|j: int| 0 <= j < i ==> wrapped@[j]@ == as_conjunction(or_args@[j]@),
                changed == exists|j: int| 0 <= j < i && as_conjunction(or_args@[j]@) != or_args@[j]@,
            decreases or_args.len() - i,
        {
            if or_args[i].is_call_of(VariadicFunc::And) {
                wrapped.push(or_args[i].clone());
            } else {
                let mut one: Vec<ScalarExpr> = Vec::new();
                one.push(or_args[i].clone());
                assert(exprs_view(one@) =~= seq![or_args@[i as int]@]);
                wrapped.push(ScalarExpr::call_variadic(VariadicFunc::And, one));
                changed = true;
            }
            i += 1;
        }
        assert(exprs_view(wrapped@) =~= conjunctions(exprs_view(or_args@)));
        proof {
            let args = exprs_view(or_args@);
            if changed {
                let j = choose|j: int| 0 <= j < i && as_conjunction(or_args@[j]@) != or_args@[j]@;
                assert(conjunctions(args)[j] != args[j]);
            } else {
                assert(conjunctions(args) =~= args);
            }
        }
        if changed {
            let predicate = ScalarExpr::call_variadic(VariadicFunc::Or, wrapped);
            let mut predicates: Vec<ScalarExpr> = Vec::new();
            predicates.push(predicate);
            assert(exprs_view(predicates@) =~= seq![predicate@]);
            mfp.predicates = predicates;
        }
    }
}

// ---------------------------------------------------------------------------
// What the preparation keeps
// ---------------------------------------------------------------------------
/// The conjunction of the predicates holds on the rows on which all of them
/// hold, and reads the columns that they read.
pub proof fn lemma_and_of_predicates(mfp: Mfp)
    ensures
        mfp.wf() ==> mfp.and_of_predicates().wf(),
        forall|row: Seq<Value>|
            all_hold(mfp.and_of_predicates().predicates, row) == all_hold(mfp.predicates, row),
{
    let out = mfp.and_of_predicates();
    assert forall|row: Seq<Value>| all_hold(out.predicates, row) == all_hold(
        mfp.predicates,
        row,
    ) by {
        lemma_and_holds(mfp.predicates, row);
        if all_hold(out.predicates, row) {
            assert(out.predicates[0].holds(row));
        }
    }
}

/// A round of expansion keeps the value of a predicate on every row and
/// reads no new column.
pub proof fn lemma_normalize_round(p: Expr, row: Seq<Value>, n: nat)
    ensures
        normalize_round(p).eval(row) == p.eval(row),
        p.reads_below(n) ==> normalize_round(p).reads_below(n),
{
    lemma_distribute_eval(p, row);
    lemma_flatten_eval(p.distribute(), row);
    if p.reads_below(n) {
        lemma_distribute_reads(p, n);
        lemma_flatten_reads(p.distribute(), n);
    }
}

/// However the expansion of a predicate ends, what it ends with has the
/// value of the predicate on every row and reads no new column.
pub proof fn lemma_normalize_rounds(p: Expr, rounds: nat, row: Seq<Value>, n: nat)
    ensures
        normalize_rounds(p, rounds).or_else(p).eval(row) == p.eval(row),
        p.reads_below(n) ==> normalize_rounds(p, rounds).or_else(p).reads_below(n),
    decreases rounds,
{
    lemma_normalize_round(p, row, n);
    if p.depth() <= RECURSION_LIMIT && p.size() <= DNF_SIZE_CAP && normalize_round(p) != p
        && rounds > 0 {
        lemma_normalize_rounds(normalize_round(p), (rounds - 1) as nat, row, n);
    }
}

/// Expanding the predicates of a well-formed operator gives a well-formed
/// operator whose predicates hold on the same rows.
pub proof fn lemma_normalized(mfp: Mfp)
    ensures
        mfp.wf() ==> mfp.normalized().wf(),
        mfp.normalized().predicates.len() == mfp.predicates.len(),
        forall|row: Seq<Value>|
            all_hold(mfp.normalized().predicates, row) == all_hold(mfp.predicates, row),
{
    let out = mfp.normalized();
    let n = mfp.input_arity + mfp.expressions.len();
    if mfp.wf() {
        assert forall|i: int| 0 <= i < out.predicates.len() implies (
        #[trigger] out.predicates[i]).reads_below(n) by {
            assert(mfp.predicates[i].reads_below(n));
            lemma_normalize_rounds(mfp.predicates[i], DNF_ROUND_LIMIT as nat, Seq::empty(), n);
        }
    }
    assert forall|row: Seq<Value>| all_hold(out.predicates, row) == all_hold(
        mfp.predicates,
        row,
    ) by {
        assert forall|i: int| 0 <= i < mfp.predicates.len() implies out.predicates[i].holds(row)
            == mfp.predicates[i].holds(row) by {
            lemma_normalize_rounds(mfp.predicates[i], DNF_ROUND_LIMIT as nat, row, n);
        }
        if all_hold(out.predicates, row) {
            assert forall|i: int| 0 <= i < mfp.predicates.len() implies (
            #[trigger] mfp.predicates[i]).holds(row) by {
                assert(out.predicates[i].holds(row));
            }
        }
        if all_hold(mfp.predicates, row) {
            assert forall|i: int| 0 <= i < out.predicates.len() implies (
            #[trigger] out.predicates[i]).holds(row) by {
                assert(mfp.predicates[i].holds(row));
            }
        }
    }
}

/// Making each branch a conjunction keeps the rows on which one of the
/// branches holds, and reads no new column.
pub proof fn lemma_conjunctions(args: Seq<Expr>, row: Seq<Value>, n: nat)
    ensures
        some_holds(conjunctions(args), row) == some_holds(args, row),
        (forall|i: int| 0 <= i < args.len() ==> (#[trigger] args[i]).reads_below(n)) ==> (forall|
            i: int,
        |
            0 <= i < conjunctions(args).len() ==> (#[trigger] conjunctions(args)[i]).reads_below(n)),
{
    let out = conjunctions(args);
    assert forall|i: int| 0 <= i < args.len() implies out[i].holds(row) == args[i].holds(row) by {
        let one = seq![args[i]];
        lemma_and_holds(one, row);
        assert(one[0] == args[i]);
    }
    if some_holds(out, row) {
        let i = choose|i: int| 0 <= i < out.len() && (#[trigger] out[i]).holds(row);
        assert(args[i].holds(row));
    }
    if some_holds(args, row) {
        let i = choose|i: int| 0 <= i < args.len() && (#[trigger] args[i]).holds(row);
        assert(out[i].holds(row));
    }
    if forall|i: int| 0 <= i < args.len() ==> (#[trigger] args[i]).reads_below(n) {
        assert forall|i: int| 0 <= i < out.len() implies (#[trigger] out[i]).reads_below(n) by {
            assert(args[i].reads_below(n));
            let one = seq![args[i]];
            assert forall|k: int| 0 <= k < one.len() implies (#[trigger] one[k]).reads_below(
                n,
            ) by {}
        }
    }
}

/// Making each branch of the predicate of a well-formed operator a
/// conjunction gives a well-formed operator whose predicate holds on the
/// same rows.
pub proof fn lemma_unary_and(mfp: Mfp)
    requires
        mfp.predicates.len() == 1,
    ensures
        mfp.wf() ==> mfp.unary_and().wf(),
        mfp.unary_and().predicates.len() == 1,
        forall|row: Seq<Value>|
            all_hold(mfp.unary_and().predicates, row) == all_hold(mfp.predicates, row),
{
    let out = mfp.unary_and();
    let args = mfp.or_args();
    let n = mfp.input_arity + mfp.expressions.len();
    let predicate = Expr::CallVariadic(VariadicFunc::Or, conjunctions(args));
    if mfp.wf() && conjunctions(args) != args {
        assert(mfp.predicates[0].reads_below(n));
        lemma_conjunctions(args, Seq::empty(), n);
        assert(predicate.reads_below(n));
        assert forall|i: int| 0 <= i < out.predicates.len() implies (
        #[trigger] out.predicates[i]).reads_below(n) by {}
    }
    assert forall|row: Seq<Value>| all_hold(out.predicates, row) == all_hold(
        mfp.predicates,
        row,
    ) by {
        if conjunctions(args) != args {
            lemma_disjuncts_hold(mfp.predicates[0], row);
            lemma_conjunctions(args, row, n);
            lemma_or_holds(conjunctions(args), row);
            assert(out.predicates[0] == predicate);
            if all_hold(out.predicates, row) {
                assert(out.predicates[0].holds(row));
            }
            if all_hold(mfp.predicates, row) {
                assert(mfp.predicates[0].holds(row));
            }
        }
    }
}

} // verus!
