use vstd::prelude::*;
use core::cmp::Ordering;
use vstd::std_specs::cmp::PartialOrdSpec;

verus! {

/// How much of the surrounding code an interpreter is able to take into account.
/// Levels are ordered by their rank: a higher level includes what the lower ones do.
#[derive(Debug, Clone, Copy, PartialEq, Eq, Structural)]
pub enum SupportLevel {
    /// no support
    Unsupported,
    /// run the code in the line, all is contained within and no variable
    /// declaration/initialisation happens before
    Line,
    /// run a bloc of code, same limitations as Line
    Bloc,
    /// support exterior imports
    Import,
    /// run a line/bloc of code, but include variable/functions definitions found in the file
    File,
    /// run a line/bloc of code, but include (only needed) variable/functions found in the project
    Project,
    /// run a line/bloc of code, but include variable/function from the project and project
    /// or system-wide dependencies
    System,
    /// selected: don't use this support level, it is meant to communicate user's config choices
    Selected,
}

impl SupportLevel {
    /// The rank of a level; levels compare by their rank.
    pub open spec fn rank(self) -> u8 {
        match self {
            SupportLevel::Unsupported => 0,
            SupportLevel::Line => 1,
            SupportLevel::Bloc => 2,
            SupportLevel::Import => 5,
            SupportLevel::File => 10,
            SupportLevel::Project => 20,
            SupportLevel::System => 30,
            SupportLevel::Selected => 255,
        }
    }

    /// The numeric rank of this level.
    pub fn value(&self) -> (v: u8)
        ensures
            v == self.rank(),
    {
        match self {
            SupportLevel::Unsupported => 0,
            SupportLevel::Line => 1,
            SupportLevel::Bloc => 2,
            SupportLevel::Import => 5,
            SupportLevel::File => 10,
            SupportLevel::Project => 20,
            SupportLevel::System => 30,
            SupportLevel::Selected => 255,
        }
    }
}

impl PartialOrd for SupportLevel {
    fn partial_cmp(&self, other: &Self) -> (r: Option<Ordering>) {
        let a = self.value();
        let b = other.value();
        if a < b {
            Some(Ordering::Less)
        } else if a == b {
            Some(Ordering::Equal)
        } else {
            Some(Ordering::Greater)
        }
    }
}

impl vstd::std_specs::cmp::PartialOrdSpecImpl for SupportLevel {
    open spec fn obeys_partial_cmp_spec() -> bool {
        true
    }

    open spec fn partial_cmp_spec(&self, other: &Self) -> Option<Ordering> {
        if self.rank() < other.rank() {
            Some(Ordering::Less)
        } else if self.rank() == other.rank() {
            Some(Ordering::Equal)
        } else {
            Some(Ordering::Greater)
        }
    }
}

/// Two levels compare as their ranks do, and equal ranks belong to the same level:
/// the order on levels is a total order.
pub proof fn lemma_level_order_is_rank_order(a: SupportLevel, b: SupportLevel)
    ensures
        (a.rank() == b.rank()) <==> (a == b),
        a.partial_cmp_spec(&b) == Some(Ordering::Less) <==> a.rank() < b.rank(),
        a.partial_cmp_spec(&b) == Some(Ordering::Greater) <==> b.partial_cmp_spec(&a) == Some(
            Ordering::Less,
        ),
        a.partial_cmp_spec(&b) is Some,
{
}

} // verus!
