//! The pass that turns scans with literal-equality filters into lookups in
//! an index.

use crate::canonicalize::some_too_deep;
use crate::contradiction::cleaned_branches;
use crate::index::{GlobalId, IndexOracle};
use crate::mfp::{MapFilterProject, Mfp};
use crate::plan_sound::{keys_read_below, lemma_scan_plan, plan_answers};
use crate::scalar::{
    clamp, exprs_view, total_size, Expr, RecursionLimitError, ScalarExpr, RECURSION_LIMIT,
};
use crate::strip::removable;
use crate::value::{rows_view, Value};
use vstd::prelude::*;

verus! {

/// Converts literal constraints on a scanned collection into joins with the
/// set of literal rows, to be answered by lookups in an index.
#[derive(Debug)]
pub struct LiteralConstraints;

/// The mathematical form of what is decided for one scan.
pub ghost struct ScanPlan {
    /// The operator to put on top of the scan or of the lookup.
    pub mfp: Mfp,
    /// Whether that operator is the one that was there.
    pub kept_given: bool,
    /// The key of the index to look up in, and the literal rows to look up.
    pub lookup: Option<(Seq<Expr>, Seq<Seq<Value>>)>,
}

/// What is decided for one scan.
#[derive(Debug, PartialEq, Eq)]
pub struct ScanRewrite {
    /// The operator to put on top of the scan or of the lookup.
    pub mfp: MapFilterProject,
    /// Whether that operator is the one that was there.
    pub kept_given: bool,
    /// The key of the index to look up in, and the literal rows to look up.
    pub lookup: Option<(Vec<ScalarExpr>, Vec<Vec<Value>>)>,
}

impl View for ScanRewrite {
    type V = ScanPlan;

    open spec fn view(&self) -> ScanPlan {
        ScanPlan {
            mfp: self.mfp@,
            kept_given: self.kept_given,
            lookup: match self.lookup {
                Some((key, rows)) => Some((exprs_view(key@), rows_view(rows@))),
                None => None,
            },
        }
    }
}

impl Mfp {
    /// Whether a predicate is nested too deeply to be measured.
    pub open spec fn too_deep_to_measure(self) -> bool {
        some_too_deep(self.predicates)
    }

    /// The operator in the form in which literal constraints are looked
    /// for, as far as the expansion of its predicate got.
    pub open spec fn prepared(self) -> Mfp {
        self.with_literal_constraints_inlined().and_of_predicates().normalized().unary_and()
    }

    /// Whether the operator is nested too deeply to be prepared.
    pub open spec fn too_deep_to_prepare(self) -> bool {
        self.too_deep_to_inline()
            || self.with_literal_constraints_inlined().and_of_predicates().too_deep_to_normalize()
    }

    /// Whether the expansion of the predicate came to its end.
    pub open spec fn prepares_fully(self) -> bool {
        self.with_literal_constraints_inlined().and_of_predicates().normalizes_fully()
    }

    /// The choice between the operator `self`, once its predicates are a
    /// plain list again, and the operator `given`: the first if its
    /// predicates are smaller, else the second, each with a flag that tells
    /// whether it is the given one. `None` if a predicate is nested too
    /// deeply to be measured.
    pub open spec fn or_given(self, given: Mfp) -> Option<(Mfp, bool)> {
        let simple = self.with_canonical_predicates();
        if given.too_deep_to_measure() || simple.too_deep_to_measure() {
            None
        } else if clamp(total_size(simple.predicates)) < clamp(total_size(given.predicates)) {
            Some((simple, false))
        } else {
            Some((given, true))
        }
    }

    /// What is decided for a scan of a collection with indexes of the given
    /// keys under this operator. `None` if an expression is nested too
    /// deeply.
    pub open spec fn scan_plan(self, keys: Seq<Seq<Expr>>) -> Option<ScanPlan> {
        if self.too_deep_to_prepare() {
            None
        } else {
            let prepared = self.prepared();
            let cleaned = prepared.without_impossible_or_args();
            let removed = cleaned_branches(prepared.or_args()) != prepared.or_args();
            let found = if self.prepares_fully() {
                cleaned.detect(keys)
            } else {
                None
            };
            match found {
                None => if removed {
                    match cleaned.or_given(self) {
                        Some((mfp, kept_given)) => Some(
                            ScanPlan { mfp, kept_given, lookup: None },
                        ),
                        None => None,
                    }
                } else {
                    Some(ScanPlan { mfp: self, kept_given: true, lookup: None })
                },
                Some((key, rows)) => if removable(cleaned.or_args(), key) || removed {
                    match cleaned.without_literal_constraints(key).or_given(self) {
                        Some((mfp, kept_given)) => Some(
                            ScanPlan { mfp, kept_given, lookup: Some((key, rows)) },
                        ),
                        None => None,
                    }
                } else {
                    Some(ScanPlan { mfp: self, kept_given: true, lookup: Some((key, rows)) })
                },
            }
        }
    }
}

impl LiteralConstraints {
    /// Chooses between `mfp`, once its predicates are a plain list again,
    /// and `given`: `mfp` if its predicates are smaller, else a copy of
    /// `given`. Returns whether it chose `given`.
    pub fn undo_preparation(mfp: &mut MapFilterProject, given: &MapFilterProject) -> (r: Result<
        bool,
        RecursionLimitError,
    >)
        ensures
            match r {
                Ok(kept_given) => old(mfp)@.or_given(given@) == Some(
                    (final(mfp)@, kept_given),
                ),
                Err(e) => old(mfp)@.or_given(given@) is None && e.limit == RECURSION_LIMIT,
            },
    {
        Self::canonicalize_predicates(mfp);
        let given_size = match Self::predicates_size(given) {
            Ok(n) => n,
            Err(e) => {
                return Err(e);
            },
        };
        let size = match Self::predicates_size(mfp) {
            Ok(n) => n,
            Err(e) => {
                return Err(e);
            },
        };
        if size < given_size {
            Ok(false)
        } else {
            *mfp = given.clone();
            Ok(true)
        }
    }

    /// Decides what to do with a scan of the collection `id` under the
    /// operator `mfp`: whether to look its rows up in an index, by which key
    /// and for which literal rows, and which operator to put on top.
    ///
    /// The predicates are prepared, impossible branches are removed, and an
    /// index is looked for, unless the expansion of the predicates was cut
    /// short. If an index is found, its constraints are taken out of the
    /// predicates where that is possible. Whatever was done to the
    /// predicates is kept only if it makes them smaller: the predicates of
    /// the result are never larger than those of `mfp`. The operator of the
    /// result keeps a row exactly when `mfp` keeps it, provided that the
    /// lookup, if there is one, finds the row. Fails if an expression is
    /// nested too deeply.
    pub fn plan_scan<O: IndexOracle>(mfp: &MapFilterProject, id: GlobalId, indexes: &O) -> (r:
        Result<ScanRewrite, RecursionLimitError>)
        ensures
            match r {
                Ok(plan) => {
                    &&& mfp@.scan_plan(indexes.keys_on(id)) == Some(plan@)
                    &&& total_size(plan@.mfp.predicates) <= total_size(mfp@.predicates)
                    &&& mfp@.wf() && keys_read_below(indexes.keys_on(id), mfp@.input_arity)
                        ==> plan_answers(plan@, mfp@, indexes.keys_on(id))
                },
                Err(e) => mfp@.scan_plan(indexes.keys_on(id)) is None && e.limit
                    == RECURSION_LIMIT,
            },
    {
        proof {
            let keys = indexes.keys_on(id);
            if mfp@.wf() && keys_read_below(keys, mfp@.input_arity) && mfp@.scan_plan(keys)
                is Some {
                lemma_scan_plan(mfp@, keys);
            }
        }
        let mut work = mfp.clone();
        match Self::inline_literal_constraints(&mut work) {
            Ok(_) => {},
            Err(e) => {
                return Err(e);
            },
        }
        Self::list_of_predicates_to_and_of_predicates(&mut work);
        let complete = match Self::distribute_and_over_or(&mut work) {
            Ok(c) => c,
            Err(e) => {
                return Err(e);
            },
        };
        Self::unary_and(&mut work);
        assert(work@ == mfp@.prepared());
        let removed = Self::remove_impossible_or_args(&mut work);
        let found = if complete {
            Self::detect_literal_constraints(&work, id, indexes)
        } else {
            None
        };
        match found {
            None => {
                if removed {
                    match Self::undo_preparation(&mut work, mfp) {
                        Ok(kept_given) => Ok(
                            ScanRewrite { mfp: work, kept_given, lookup: None },
                        ),
                        Err(e) => Err(e),
                    }
                } else {
                    Ok(ScanRewrite { mfp: mfp.clone(), kept_given: true, lookup: None })
                }
            },
            Some((key, rows)) => {
                let stripped = Self::remove_literal_constraints(&mut work, &key);
                if stripped || removed {
                    match Self::undo_preparation(&mut work, mfp) {
                        Ok(kept_given) => Ok(
                            ScanRewrite { mfp: work, kept_given, lookup: Some((key, rows)) },
                        ),
                        Err(e) => Err(e),
                    }
                } else {
                    Ok(
                        ScanRewrite {
                            mfp: mfp.clone(),
                            kept_given: true,
                            lookup: Some((key, rows)),
                        },
                    )
                }
            },
        }
    }
}

} // verus!
