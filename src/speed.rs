//! How fast automatic play advances.
use vstd::prelude::*;

verus! {

/// The pace of automatic play.
#[derive(Debug, Clone, Copy, PartialEq, Eq, Structural)]
pub enum RunSpeed {
    Slow,
    Fast,
    Instant,
    Manual,
}

impl RunSpeed {
    pub open spec fn name(self) -> Seq<char> {
        match self {
            RunSpeed::Slow => "Slow"@,
            RunSpeed::Fast => "Fast"@,
            RunSpeed::Instant => "Instant"@,
            RunSpeed::Manual => "Manual"@,
        }
    }

    pub open spec fn millis(self) -> u64 {
        match self {
            RunSpeed::Slow => 1000,
            RunSpeed::Fast => 250,
            RunSpeed::Instant => 0,
            RunSpeed::Manual => u64::MAX,
        }
    }

    /// The pause between automatic steps, in milliseconds; manual play
    /// waits for as long as a `u64` can say.
    pub fn time(&self) -> (r: u64)
        ensures
            r == self.millis(),
    {
        match self {
            RunSpeed::Slow => 1000,
            RunSpeed::Fast => 250,
            RunSpeed::Instant => 0,
            RunSpeed::Manual => u64::MAX,
        }
    }

    pub fn to_string(&self) -> (r: String)
        ensures
            r@ == self.name(),
    {
        proof {
            reveal_strlit("Slow");
            reveal_strlit("Fast");
            reveal_strlit("Instant");
            reveal_strlit("Manual");
        }
        match self {
            RunSpeed::Slow => "Slow".to_owned(),
            RunSpeed::Fast => "Fast".to_owned(),
            RunSpeed::Instant => "Instant".to_owned(),
            RunSpeed::Manual => "Manual".to_owned(),
        }
    }
}

} // verus!
