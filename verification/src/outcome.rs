//! What one slice of search work reports.
use vstd::prelude::*;

verus! {

/// Outcome of one bounded slice of search work.
///
/// The variants stand for the numbers 0 to 3, in the order written here;
/// [`PathFindResultType::code`] gives the number of a variant.
#[derive(Clone, Copy, Debug, PartialEq, Eq, Structural)]
pub enum PathFindResultType {
    NextTile,
    Pending,
    Completed,
    PathNotFound,
}

impl PathFindResultType {
    /// The number that stands for a result wherever it leaves the library.
    pub open spec fn spec_code(self) -> u8 {
        match self {
            PathFindResultType::NextTile => 0,
            PathFindResultType::Pending => 1,
            PathFindResultType::Completed => 2,
            PathFindResultType::PathNotFound => 3,
        }
    }

    /// The result that a number stands for, if any.
    pub open spec fn spec_from_code(code: u8) -> Option<PathFindResultType> {
        if code == 0 {
            Some(PathFindResultType::NextTile)
        } else if code == 1 {
            Some(PathFindResultType::Pending)
        } else if code == 2 {
            Some(PathFindResultType::Completed)
        } else if code == 3 {
            Some(PathFindResultType::PathNotFound)
        } else {
            None
        }
    }

    #[verifier::when_used_as_spec(spec_code)]
    pub fn code(self) -> (c: u8)
        ensures
            c == self.spec_code(),
            c <= 3,
    {
        match self {
            PathFindResultType::NextTile => 0,
            PathFindResultType::Pending => 1,
            PathFindResultType::Completed => 2,
            PathFindResultType::PathNotFound => 3,
        }
    }

    pub fn from_code(code: u8) -> (r: Option<PathFindResultType>)
        ensures
            r == Self::spec_from_code(code),
            r is Some <==> code <= 3,
    {
        if code == 0 {
            Some(PathFindResultType::NextTile)
        } else if code == 1 {
            Some(PathFindResultType::Pending)
        } else if code == 2 {
            Some(PathFindResultType::Completed)
        } else if code == 3 {
            Some(PathFindResultType::PathNotFound)
        } else {
            None
        }
    }

    /// A result's number stands for that result and no other.
    pub proof fn lemma_code_round_trip(r: PathFindResultType)
        ensures
            Self::spec_from_code(r.spec_code()) == Some(r),
    {
    }
}

} // verus!
