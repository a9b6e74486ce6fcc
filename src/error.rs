use vstd::prelude::*;

verus! {

/// A save file, or a region of it, that does not follow the expected layout.
#[derive(Debug, Clone, Copy, PartialEq, Eq, Structural)]
pub enum FormatError {
    /// A tag id in the attribute block names no attribute kind.
    UnknownTag(u16),
    /// A tag was found, but fewer bits than its field's width precede it.
    TruncatedField,
    /// The two-byte marker of the skills section does not occur after the attribute block.
    MarkerNotFound,
    /// The file ends before the end of the skills section.
    Truncated,
    /// A bit sequence whose length is not a whole number of bytes.
    Unaligned,
}

/// A request to change an attribute that the file cannot take.
#[derive(Debug, Clone, Copy, PartialEq, Eq, Structural)]
pub enum StatsError {
    /// The attribute does not occur in the file, so it has no place to be written to.
    NotPresent,
    /// The value needs more bits than the attribute's field holds.
    ValueTooLarge,
}

} // verus!
