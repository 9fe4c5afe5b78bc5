//! Which way a deployment gets numbers for its employees.
use crate::text::same_text;
use vstd::prelude::*;
use vstd::string::*;

verus! {

/// How a deployment gets numbers for its employees: a decision per region, not
/// per employee.
#[derive(Debug, Clone, Copy, PartialEq, Eq, Structural, PartialOrd, Ord, Hash)]
pub enum NumberStrategy {
    /// One number bought per employee. Right where a number is cheap and
    /// unregulated.
    Dedicated,
    /// Employees share a small tenant-owned pool and are routed by
    /// counterparty. Right where each number costs a reviewed bundle.
    Pooled,
}

impl NumberStrategy {
    /// The stored name of a strategy.
    pub open spec fn name(self) -> Seq<char> {
        match self {
            NumberStrategy::Dedicated => "dedicated"@,
            NumberStrategy::Pooled => "pooled"@,
        }
    }

    /// Stable wire and storage spelling of the variant.
    pub fn as_str(&self) -> (r: &'static str)
        ensures
            r@ == self.name(),
    {
        match self {
            NumberStrategy::Dedicated => "dedicated",
            NumberStrategy::Pooled => "pooled",
        }
    }

    /// Read one back out of storage.
    pub fn parse(raw: &str) -> (r: Option<NumberStrategy>)
        ensures
            match r {
                Some(s) => raw@ == s.name(),
                None => forall|s: NumberStrategy| raw@ != #[trigger] s.name(),
            },
            forall|s: NumberStrategy| raw@ == #[trigger] s.name() ==> r == Some(s),
    {
        proof {
            reveal_strlit("dedicated");
            reveal_strlit("pooled");
            assert("dedicated"@.len() != "pooled"@.len());
        }
        if same_text(raw, "dedicated") {
            Some(NumberStrategy::Dedicated)
        } else if same_text(raw, "pooled") {
            Some(NumberStrategy::Pooled)
        } else {
            None
        }
    }
}

} // verus!
