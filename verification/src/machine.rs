//! Readers as machines driven by the outcomes of successive reads.

use vstd::prelude::*;
use quick_xml::events::attributes::AttrError;
use crate::error::SdkError;
use crate::reader::ReadOutcome;

verus! {

/// Either the machine goes on in a new state, or it has stopped with a result.
pub enum Step<S, R> {
    Continue(S),
    Stop(R),
}

/// The machine `step` started in `start` and fed `outcomes` in order; once it
/// stops, later outcomes are not looked at.
pub open spec fn run<S, R>(
    step: spec_fn(S, ReadOutcome) -> Step<S, R>,
    start: S,
    outcomes: Seq<ReadOutcome>,
) -> Step<S, R>
    decreases outcomes.len(),
{
    if outcomes.len() == 0 {
        Step::Continue(start)
    } else {
        match run(step, start, outcomes.drop_last()) {
            Step::Continue(s) => step(s, outcomes.last()),
            Step::Stop(r) => Step::Stop(r),
        }
    }
}

/// The machine stops exactly at the last of `outcomes`, with `result`.
pub open spec fn stops_with<S, R>(
    step: spec_fn(S, ReadOutcome) -> Step<S, R>,
    start: S,
    outcomes: Seq<ReadOutcome>,
    result: R,
) -> bool {
    &&& outcomes.len() > 0
    &&& run(step, start, outcomes.drop_last()) is Continue
    &&& run(step, start, outcomes) == Step::<S, R>::Stop(result)
}

pub proof fn lemma_run_push<S, R>(
    step: spec_fn(S, ReadOutcome) -> Step<S, R>,
    start: S,
    outcomes: Seq<ReadOutcome>,
    outcome: ReadOutcome,
)
    ensures
        run(step, start, outcomes.push(outcome)) == (match run(step, start, outcomes) {
            Step::Continue(s) => step(s, outcome),
            Step::Stop(r) => Step::<S, R>::Stop(r),
        }),
{
    assert(outcomes.push(outcome).drop_last() =~= outcomes);
}

pub proof fn lemma_run_append<S, R>(
    step: spec_fn(S, ReadOutcome) -> Step<S, R>,
    start: S,
    first: Seq<ReadOutcome>,
    second: Seq<ReadOutcome>,
)
    ensures
        run(step, start, first + second) == (match run(step, start, first) {
            Step::Continue(s) => run(step, s, second),
            Step::Stop(r) => Step::<S, R>::Stop(r),
        }),
    decreases second.len(),
{
    if second.len() == 0 {
        assert(first + second =~= first);
    } else {
        lemma_run_append(step, start, first, second.drop_last());
        assert((first + second).drop_last() =~= first + second.drop_last());
        assert((first + second).last() == second.last());
    }
}

/// Why a reader stopped with an error, as far as the library decides it.
pub enum Failure {
    /// The reader itself failed with this error.
    Reader(SdkError),
    /// An attribute could not be read.
    Attribute(AttrError),
    /// A `CommonError` with this text.
    Common(Seq<char>),
    /// A `MismatchError` with these names.
    Mismatch { expected: Seq<char>, found: Seq<char> },
    /// An attribute value could not be decoded or unescaped (a `QuickXmlError`).
    Unescape,
    /// Text could not be decoded (a `QuickEncodingError`).
    Encoding,
}

/// `error` is the error that `failure` describes.
pub open spec fn is_failure(error: SdkError, failure: Failure) -> bool {
    match failure {
        Failure::Reader(e) => error == e,
        Failure::Attribute(a) => error == SdkError::AttrError(a),
        Failure::Common(text) => error matches SdkError::CommonError(t) && t@ == text,
        Failure::Mismatch { expected, found } => error matches SdkError::MismatchError { expected: x, found: y }
            && x@ == expected && y@ == found,
        Failure::Unescape => error is QuickXmlError,
        Failure::Encoding => error is QuickEncodingError,
    }
}

} // verus!
