use vstd::prelude::*;

verus! {

/// The ways in which the generator refuses work.
#[derive(Debug, Clone, Copy, PartialEq, Eq, Structural)]
pub enum DictionaryGeneratorError {
    /// The alphabet holds no symbol, so no value can be formed.
    AlphabetEmpty,
    /// The caller's buffer cannot hold one whole decorated record and its newline.
    BufferTooSmall,
}

impl DictionaryGeneratorError {
    /// A human-readable description of the error.
    pub fn message(&self) -> (r: &'static str)
        ensures
            *self == DictionaryGeneratorError::AlphabetEmpty ==> r@
                == "Alphabet is empty, then combinations can't be generated"@,
            *self == DictionaryGeneratorError::BufferTooSmall ==> r@ == "Buffer is too small"@,
    {
        match self {
            DictionaryGeneratorError::AlphabetEmpty => "Alphabet is empty, then combinations can't be generated",
            DictionaryGeneratorError::BufferTooSmall => "Buffer is too small",
        }
    }
}

} // verus!
