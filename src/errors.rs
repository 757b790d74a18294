use vstd::prelude::*;

use crate::token::Span;

verus! {

/// A fault found while scanning, with the span it concerns.
#[derive(Debug, PartialEq)]
pub enum UserSideError {
    /// A digit sequence whose value does not fit in 64 unsigned bits.
    OverflowError(Span),
    /// An integer literal whose magnitude (the second field) does not fit in
    /// 64 signed bits.
    IntOverflowError(Span, u64),
    /// Characters that no scanning rule accepts.
    UnokwenToken(Span),
    /// A string literal that misses its closing quote (the second field).
    UnclosedString(Span, char),
    /// Several faults found in one token.
    Compound(Vec<UserSideError>),
}

/// A single fault, not an aggregate.
pub open spec fn is_leaf(e: UserSideError) -> bool {
    !(e is Compound)
}

/// A single fault, or an aggregate of two or more single faults.
pub open spec fn flat_error(e: UserSideError) -> bool {
    match e {
        UserSideError::Compound(v) => v@.len() >= 2 && forall|k: int|
            0 <= k < v@.len() ==> is_leaf(#[trigger] v@[k]),
        _ => true,
    }
}

/// The single faults that an optional error stands for, in order.
pub open spec fn faults_of(e: Option<Box<UserSideError>>) -> Seq<UserSideError> {
    match e {
        None => Seq::empty(),
        Some(b) => match *b {
            UserSideError::Compound(v) => v@,
            leaf => seq![leaf],
        },
    }
}

/// The faults of two merged errors: those of the first, then those of the
/// second, except that a single fault merged into an aggregate is appended
/// to it.
pub open spec fn merged(f1: Seq<UserSideError>, f2: Seq<UserSideError>) -> Seq<UserSideError> {
    if f1.len() == 1 && f2.len() >= 2 {
        f2 + f1
    } else {
        f1 + f2
    }
}

/// Merges two optional errors into one that keeps every fault of both (see
/// `merged` for the order). An aggregate is never nested in another.
pub fn combine_errors(
    err1: Option<Box<UserSideError>>,
    err2: Option<Box<UserSideError>>,
) -> (r: Option<Box<UserSideError>>)
    requires
        err1 is Some ==> flat_error(*err1->0),
        err2 is Some ==> flat_error(*err2->0),
    ensures
        r is Some ==> flat_error(*r->0),
        faults_of(r) == merged(faults_of(err1), faults_of(err2)),
        r is None <==> (err1 is None && err2 is None),
{
    match (err1, err2) {
        (None, None) => None,
        (Some(e), None) => {
            assert(faults_of(Some(e)) =~= faults_of(Some(e)) + Seq::<UserSideError>::empty());
            Some(e)
        },
        (None, Some(e)) => {
            assert(faults_of(Some(e)) =~= Seq::<UserSideError>::empty() + faults_of(Some(e)));
            Some(e)
        },
        (Some(e1), Some(e2)) => {
            let ghost f1 = faults_of(Some(e1));
            let ghost f2 = faults_of(Some(e2));
            let v: Vec<UserSideError> = match (*e1, *e2) {
                (UserSideError::Compound(mut v1), UserSideError::Compound(mut v2)) => {
                    v1.append(&mut v2);
                    v1
                },
                (UserSideError::Compound(mut v), e) => {
                    v.push(e);
                    v
                },
                (e, UserSideError::Compound(mut v)) => {
                    v.push(e);
                    v
                },
                (a, b) => vec![a, b],
            };
            assert(v@ =~= merged(f1, f2));
            Some(Box::new(UserSideError::Compound(v)))
        },
    }
}

/// A finding that does not make the text wrong.
#[derive(Clone, Copy, Debug, PartialEq, Eq)]
pub enum UserSideWarning {
    UnusedVar(Span),
}

} // verus!
