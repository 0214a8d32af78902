//! A position in a byte buffer.
use vstd::prelude::*;

verus! {

/// A byte buffer with a position from which it is read.
#[derive(Debug)]
pub struct Cursor {
    data: Vec<u8>,
    position: u64,
}

/// What a cursor holds.
pub struct CursorView {
    pub data: Seq<u8>,
    pub position: u64,
}

impl View for Cursor {
    type V = CursorView;

    closed spec fn view(&self) -> CursorView {
        CursorView { data: self.data@, position: self.position }
    }
}

impl Cursor {
    /// A cursor at the start of `data`.
    pub fn new(data: Vec<u8>) -> (c: Cursor)
        ensures
            c@ == (CursorView { data: data@, position: 0 }),
    {
        Cursor { data, position: 0 }
    }

    /// The position.
    pub fn position(&self) -> (p: u64)
        ensures
            p == self@.position,
    {
        self.position
    }

    /// Moves to `position`, which may lie past the end.
    pub fn set_position(&mut self, position: u64)
        ensures
            final(self)@ == (CursorView { data: old(self)@.data, position }),
    {
        self.position = position;
    }

    /// The whole buffer, whatever the position.
    pub fn get_ref(&self) -> (data: &[u8])
        ensures
            data@ == self@.data,
    {
        self.data.as_slice()
    }
}

} // verus!
