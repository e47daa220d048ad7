use vstd::prelude::*;

verus! {

/// Failures surfaced by the page codec and the page manager.
#[derive(Clone, Copy, Debug, PartialEq, Eq, Structural)]
pub enum PageError {
    /// Not enough free bytes on a page for a record header, the key, one
    /// payload byte and one slot-table entry.
    NoSpace,
    /// An offset or length does not fit the 16-bit address space of a page.
    OutOfRange,
    /// The requested page or slot does not exist.
    NotFound,
    /// The backing file could not be read or written.
    IoError,
    /// The bytes of a page or of an overflow chain contradict themselves.
    CorruptChain,
}

/// Failure of a conversion into a page offset.
#[derive(Clone, Copy, Debug, PartialEq, Eq, Structural)]
pub enum InvalidPageOffsetError {
    /// The value is larger than the widest offset a page can address.
    OutOfRange,
}

/// The name by which an error is reported.
pub open spec fn spec_describe(e: PageError) -> Seq<char> {
    match e {
        PageError::NoSpace => "no space left on page"@,
        PageError::OutOfRange => "offset or length out of range"@,
        PageError::NotFound => "page or slot not found"@,
        PageError::IoError => "i/o error on the backing file"@,
        PageError::CorruptChain => "corrupt page or overflow chain"@,
    }
}

impl PageError {
    /// A short human-readable name of the error.
    pub fn describe(&self) -> (s: &'static str)
        ensures
            s@ == spec_describe(*self),
    {
        match self {
            PageError::NoSpace => "no space left on page",
            PageError::OutOfRange => "offset or length out of range",
            PageError::NotFound => "page or slot not found",
            PageError::IoError => "i/o error on the backing file",
            PageError::CorruptChain => "corrupt page or overflow chain",
        }
    }
}

} // verus!
