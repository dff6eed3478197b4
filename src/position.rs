use vstd::prelude::*;

verus! {

/// Where the anchor word stands relative to the found word in a stitched result.
#[derive(Debug, Clone, Copy, PartialEq, Eq, Structural, PartialOrd, Ord, Hash)]
pub enum Position {
    /// The anchor word comes first: `<anchor> <found>`.
    Left,
    /// The anchor word comes last: `<found> <anchor>`.
    Right,
}

impl Position {
    /// Both alignments, `Left` before `Right`.
    pub fn all() -> (r: [Position; 2])
        ensures
            r@ == seq![Position::Left, Position::Right],
    {
        let r = [Position::Left, Position::Right];
        assert(r@ =~= seq![Position::Left, Position::Right]);
        r
    }

    /// The lower-case name of the alignment, as shown to users.
    pub fn name(&self) -> (r: &'static str)
        ensures
            *self == Position::Left ==> r@ == "left"@,
            *self == Position::Right ==> r@ == "right"@,
    {
        match self {
            Position::Left => "left",
            Position::Right => "right",
        }
    }
}

} // verus!
