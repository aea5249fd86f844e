//! Spans of time written the way they are spoken: `5.minutes()`.

use vstd::prelude::*;

verus! {

/// Trait to implement human readable syntax for duration declaration. Each
/// method gives the span in whole seconds.
pub trait HumanDuration: Sized {
    /// The number that is read as seconds, minutes, hours or days.
    spec fn amount(self) -> nat;

    fn seconds(self) -> (span: u64)
        ensures
            span == self.amount(),
    ;

    fn minutes(self) -> (span: u64)
        requires
            self.amount() * 60 <= u64::MAX,
        ensures
            span == self.amount() * 60,
    ;

    fn hours(self) -> (span: u64)
        requires
            self.amount() * 3600 <= u64::MAX,
        ensures
            span == self.amount() * 3600,
    ;

    fn days(self) -> (span: u64)
        requires
            self.amount() * 86400 <= u64::MAX,
        ensures
            span == self.amount() * 86400,
    ;
}

impl HumanDuration for u64 {
    open spec fn amount(self) -> nat {
        self as nat
    }

    fn seconds(self) -> (span: u64) {
        self
    }

    fn minutes(self) -> (span: u64) {
        self * 60
    }

    fn hours(self) -> (span: u64) {
        self * 60 * 60
    }

    fn days(self) -> (span: u64) {
        self * 60 * 60 * 24
    }
}

} // verus!
