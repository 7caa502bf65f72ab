use vstd::prelude::*;

verus! {

/// Everything that can go wrong while generating or rendering content.
#[derive(Debug)]
pub enum Error {
    /// A math or typeset fragment did not compile: reason, element and line.
    InvalidMath(String, String, usize),
    /// The vector converter reported an error.
    InvalidDvisvgm(String),
    /// A referenced file does not exist.
    FileNotFound(String),
    /// A required external binary is not on the path, with the lookup's message.
    BinaryNotFound(String),
    /// A fenced block names a kind that is not known.
    UnknownFence(String),
    /// Reading or writing a scratch file failed, with the system's message.
    Io(String),
    /// The artifact could not be loaded as an image.
    InvalidImage(String),
    /// The fold commands do not match the folds of the index: the line of
    /// the first fold that does not match, or of the first one that is
    /// missing or left over (0 where there is none).
    FoldMismatch(usize),
    /// Input from the host could not be read, with the reason.
    InvalidInput(String),
}

} // verus!
