//! The errors the resolution engine reports. Every error is a value; the
//! caller decides whether to halt. `message` renders the human-readable
//! text of each variant.

use crate::strutil::{dec_nat, usize_to_string};
use vstd::prelude::*;
use vstd::string::StringExecFns;

verus! {

/// Everything that can go wrong while resolving feature sets or chunking
/// work items.
#[derive(Debug)]
pub enum Errors {
    /// The declarative configuration of a package is contradictory.
    ValidationFailed { message: String },
    /// A rule hit a type error while being evaluated against a subset.
    RuleEvaluationFailed { message: String },
    /// A free-form rule string does not lex or parse.
    RuleParseFailed { message: String },
    /// No subset satisfies every rule; carries the greedy filtering report.
    NoValidFeatureSets { report: String },
    /// The requested chunk number lies outside `1..=chunks`.
    InvalidChunkNumber { chunk: usize, chunks: usize },
}

/// The rendered text of each error variant.
pub open spec fn message_chars(e: Errors) -> Seq<char> {
    match e {
        Errors::ValidationFailed { message } => "validation of data failed. "@ + message@,
        Errors::RuleEvaluationFailed { message } => "failed to evaluate a rule. "@ + message@,
        Errors::RuleParseFailed { message } => "failed to parse a rule. "@ + message@,
        Errors::NoValidFeatureSets { report } =>
        "no feature set validates against the given rules: "@ + report@,
        Errors::InvalidChunkNumber { chunk, chunks } => "the input --chunks was "@ + dec_nat(
            chunks as nat,
        ) + " and the current chunk number (--chunk) was "@ + dec_nat(chunk as nat)
            + ". the chunk number is not allowed to be bigger than the total amount of chunks and not smaller then 1"@,
    }
}

impl Errors {
    /// The human-readable text of the error.
    pub fn message(&self) -> (r: String)
        ensures
            r@ == message_chars(*self),
    {
        match self {
            Errors::ValidationFailed { message } => {
                let mut s = String::new();
                s.append("validation of data failed. ");
                s.append(message.as_str());
                assert(s@ =~= message_chars(*self));
                s
            },
            Errors::RuleEvaluationFailed { message } => {
                let mut s = String::new();
                s.append("failed to evaluate a rule. ");
                s.append(message.as_str());
                assert(s@ =~= message_chars(*self));
                s
            },
            Errors::RuleParseFailed { message } => {
                let mut s = String::new();
                s.append("failed to parse a rule. ");
                s.append(message.as_str());
                assert(s@ =~= message_chars(*self));
                s
            },
            Errors::NoValidFeatureSets { report } => {
                let mut s = String::new();
                s.append("no feature set validates against the given rules: ");
                s.append(report.as_str());
                assert(s@ =~= message_chars(*self));
                s
            },
            Errors::InvalidChunkNumber { chunk, chunks } => {
                let mut s = String::new();
                s.append("the input --chunks was ");
                let a = usize_to_string(*chunks);
                s.append(a.as_str());
                s.append(" and the current chunk number (--chunk) was ");
                let b = usize_to_string(*chunk);
                s.append(b.as_str());
                s.append(
                    ". the chunk number is not allowed to be bigger than the total amount of chunks and not smaller then 1",
                );
                assert(s@ =~= message_chars(*self));
                s
            },
        }
    }
}

} // verus!
