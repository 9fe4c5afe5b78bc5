//! Where text came from, and a wrapper for text that a third party wrote.
use vstd::prelude::*;

verus! {

/// Provenance of a piece of text.
///
/// `Untrusted` means that some part of it came from outside the tenant: a web
/// page, an inbound email, the result of a tool.
#[derive(Debug, Clone, Copy, PartialEq, Eq, Structural, PartialOrd, Ord, Hash)]
pub enum TrustLabel {
    Trusted,
    Untrusted,
}

impl TrustLabel {
    /// Whether this is third-party text.
    pub fn is_untrusted(self) -> (r: bool)
        ensures
            r == (self == TrustLabel::Untrusted),
    {
        matches!(self, TrustLabel::Untrusted)
    }
}

/// A value that a third party wrote: data to read, never an instruction to
/// follow. There is one way to look inside, and its name says what for.
#[derive(Debug, Clone, PartialEq, Eq, PartialOrd, Ord, Hash)]
pub struct Untrusted<T>(T);

impl<T> Untrusted<T> {
    /// The wrapped value.
    pub closed spec fn inner(self) -> T {
        self.0
    }

    /// Wrap a third party's value.
    pub fn new(value: T) -> (r: Untrusted<T>)
        ensures
            r.inner() == value,
    {
        Untrusted(value)
    }

    /// The value, for code that parses it.
    pub fn expose_for_parsing(&self) -> (r: &T)
        ensures
            *r == self.inner(),
    {
        &self.0
    }

    /// Always [`TrustLabel::Untrusted`].
    pub fn taint(&self) -> (r: TrustLabel)
        ensures
            r == TrustLabel::Untrusted,
    {
        TrustLabel::Untrusted
    }
}

} // verus!
