//! Files that a process can hold open: the console input and output.

use vstd::prelude::*;

verus! {

/// What every open file can say of itself.
pub trait File {
    /// Whether the file can be read from.
    spec fn can_read(&self) -> bool;

    /// Whether the file can be written to.
    spec fn can_write(&self) -> bool;

    /// Whether the file can be read from.
    fn readable(&self) -> (r: bool)
        ensures
            r == self.can_read(),
    ;

    /// Whether the file can be written to.
    fn writable(&self) -> (r: bool)
        ensures
            r == self.can_write(),
    ;
}

/// The console input.
#[derive(Clone, Copy, Debug, PartialEq, Eq, Structural)]
pub struct Stdin;

/// The console output.
#[derive(Clone, Copy, Debug, PartialEq, Eq, Structural)]
pub struct Stdout;

impl File for Stdin {
    open spec fn can_read(&self) -> bool {
        true
    }

    open spec fn can_write(&self) -> bool {
        false
    }

    fn readable(&self) -> (r: bool) {
        true
    }

    fn writable(&self) -> (r: bool) {
        false
    }
}

impl File for Stdout {
    open spec fn can_read(&self) -> bool {
        false
    }

    open spec fn can_write(&self) -> bool {
        true
    }

    fn readable(&self) -> (r: bool) {
        false
    }

    fn writable(&self) -> (r: bool) {
        true
    }
}

/// An entry of a table of open files.
#[derive(Clone, Copy, Debug, PartialEq, Eq, Structural)]
pub enum OpenFile {
    /// The console input.
    Input(Stdin),
    /// The console output.
    Output(Stdout),
}

impl OpenFile {
    /// Whether the file can be read from.
    pub open spec fn can_read(&self) -> bool {
        self is Input
    }

    /// Whether the file can be written to.
    pub open spec fn can_write(&self) -> bool {
        self is Output
    }

    /// Whether the file can be read from.
    pub fn readable(&self) -> (r: bool)
        ensures
            r == self.can_read(),
    {
        match self {
            OpenFile::Input(f) => f.readable(),
            OpenFile::Output(f) => f.readable(),
        }
    }

    /// Whether the file can be written to.
    pub fn writable(&self) -> (r: bool)
        ensures
            r == self.can_write(),
    {
        match self {
            OpenFile::Input(f) => f.writable(),
            OpenFile::Output(f) => f.writable(),
        }
    }
}

} // verus!
