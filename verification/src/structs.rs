use vstd::prelude::*;

verus! {

/// A slot of the stack frame: `size` bytes at offset `pos`.
#[derive(Clone, Copy, PartialEq, Eq, Structural, Debug, Hash)]
pub struct StackSlot {
    pub pos: i32,
    pub size: i32,
}

impl StackSlot {
    pub fn new(pos: i32, size: i32) -> (r: StackSlot)
        ensures
            r.pos == pos,
            r.size == size,
    {
        StackSlot { pos, size }
    }

    pub fn get_pos(&self) -> (r: i32)
        ensures
            r == self.pos,
    {
        self.pos
    }

    pub fn get_size(&self) -> (r: i32)
        ensures
            r == self.size,
    {
        self.size
    }
}

/// What code generation knows of a function's frame.
#[derive(Clone, Copy, PartialEq, Eq, Structural, Debug)]
pub struct Context {
    /// Size of the frame below the saved registers.
    pub offset: i32,
    /// Whether the raw (unallocated) form is being printed.
    pub is_row: bool,
}

impl Context {
    pub fn new() -> (r: Context)
        ensures
            r.offset == 0,
            !r.is_row,
    {
        Context { offset: 0, is_row: false }
    }

    pub fn get_offset(&self) -> (r: i32)
        ensures
            r == self.offset,
    {
        self.offset
    }

    pub fn set_offset(&mut self, offset: i32)
        ensures
            final(self).offset == offset,
            final(self).is_row == old(self).is_row,
    {
        self.offset = offset;
    }
}

} // verus!
