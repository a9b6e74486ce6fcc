use vstd::prelude::*;

verus! {

/// The fixed places of a save file.
#[derive(Debug, Clone, Copy, PartialEq, Eq, Structural)]
pub enum FileOffset {
    Header,
    Version,
    Size,
    Checksum,
    Class,
    Level,
    CharacterStats,
}

impl FileOffset {
    pub open spec fn spec_offset(self) -> nat {
        match self {
            FileOffset::Header => 0,
            FileOffset::Version => 4,
            FileOffset::Size => 8,
            FileOffset::Checksum => 12,
            FileOffset::Class => 40,
            FileOffset::Level => 43,
            FileOffset::CharacterStats => 767,
        }
    }

    /// The byte offset of this place in the file.
    pub fn offset(self) -> (r: usize)
        ensures
            r as nat == self.spec_offset(),
    {
        match self {
            FileOffset::Header => 0,
            FileOffset::Version => 4,
            FileOffset::Size => 8,
            FileOffset::Checksum => 12,
            FileOffset::Class => 40,
            FileOffset::Level => 43,
            FileOffset::CharacterStats => 767,
        }
    }
}

} // verus!
