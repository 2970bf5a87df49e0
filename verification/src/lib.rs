//! A query optimizer pass that rewrites scans under literal-equality
//! filters into lookups in an index, with the data model it works on and
//! proofs that it keeps the meaning of a query.
//!
//! The pass is [`literal_constraints::LiteralConstraints`]. For a filter
//! such as `f1 = 3 AND f2 = 5` on a collection with an index on
//! `[f1, f2]`, it replaces the scan of the collection by a join with the
//! constant collection `[(3, 5)]`, which is answered by a lookup in the
//! index. It works in these steps, each in a module of its own:
//!
//! - [`inline`] puts the definitions of computed columns back into the
//!   predicates that compare them with literals;
//! - [`prepare`] brings the predicates into the form of a disjunction of
//!   conjunctions, with the help of [`normalize`], up to a bound on their
//!   size;
//! - [`contradiction`] removes branches that can never hold, and conjuncts
//!   that repeat another;
//! - [`detect`] looks for an index whose key every branch fixes to
//!   literals;
//! - [`strip`] takes the constraints that the lookup answers out of the
//!   predicates, where what is left of the branches allows it;
//! - [`canonicalize`] brings the predicates back into a plain list;
//! - [`rewrite`] walks over a relation expression and puts the lookup in
//!   the place of each scan for which one was found.
//!
//! Expressions and relations have mathematical counterparts ([`scalar::Expr`],
//! [`mfp::Mfp`], [`relation::Relation`]) with a meaning: the value of an
//! expression on a row, and the rows of a relation on a database. The
//! modules whose names end in `_sound`, and [`rerun`], prove that each step
//! keeps that meaning, that the filter that is kept is never larger than the
//! one that was there, and that a second run changes nothing.
//!
//! [`eval`] and [`evaluate`] compute these meanings on rows and collections
//! held in memory, and [`order`] puts expressions into a total order.
//!
//! The remaining modules hold what surrounds the optimizer: the indexes
//! that a compute instance offers ([`index`], [`dataflow`]), and small
//! pieces of the configuration, the cloud API, the metrics and the webhook
//! endpoint.

pub mod canonicalize;
pub mod cloud_resources;
pub mod contradiction;
pub mod contradiction_sound;
pub mod dataflow;
pub mod detect;
pub mod detect_sound;
pub mod eval;
pub mod evaluate;
pub mod index;
pub mod inline;
pub mod literal;
pub mod literal_constraints;
pub mod lookup_sound;
pub mod metrics;
pub mod mfp;
pub mod normalize;
pub mod normalize_sound;
pub mod order;
pub mod parameters;
pub mod plan_sound;
pub mod prepare;
pub mod region;
pub mod relation;
pub mod rerun;
pub mod rewrite;
pub mod rewrite_sound;
pub mod scalar;
pub mod strip;
pub mod strip_sound;
pub mod value;
pub mod webhook;
