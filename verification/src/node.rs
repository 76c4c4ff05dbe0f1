use vstd::prelude::*;

verus! {

/// Which of the two text buffers a piece refers to.
#[derive(Clone, Copy, PartialEq, Eq, Structural)]
pub enum BufferType {
    Original,
    Add,
}

/// Node colour of the red-black tree.
#[derive(Clone, Copy, PartialEq, Eq, Structural)]
pub enum Color {
    Red,
    Black,
}

/// A piece of the document, stored in an arena slot. Slot 0 is the NIL sentinel.
#[derive(Clone, Copy)]
pub struct Node {
    pub buffer_type: BufferType,
    pub color: Color,
    pub start: usize,
    pub length: usize,
    pub subtree_length: usize,
    pub left_subtree_length: usize,
    pub left: usize,
    pub right: usize,
    pub parent: usize,
}

/// A detached red piece covering `length` bytes from `start`.
pub open spec fn fresh_piece(buffer_type: BufferType, start: usize, length: usize) -> Node {
    Node {
        buffer_type,
        color: Color::Red,
        start,
        length,
        subtree_length: length,
        left_subtree_length: 0,
        left: 0,
        right: 0,
        parent: 0,
    }
}

impl Node {
    /// A fresh, detached, red piece covering `length` bytes from `start`.
    pub fn new(buffer_type: BufferType, start: usize, length: usize) -> (r: Node)
        ensures
            r == fresh_piece(buffer_type, start, length),
    {
        Node {
            buffer_type,
            color: Color::Red,
            start,
            length,
            subtree_length: length,
            left_subtree_length: 0,
            left: 0,
            right: 0,
            parent: 0,
        }
    }
}

/// Metadata snapshot for a node in the red-black tree.
#[derive(Debug, Clone, PartialEq, Eq, Structural)]
pub struct NodeInfo {
    pub index: usize,
    pub length: usize,
    pub subtree_length: usize,
    pub left_subtree_length: usize,
    pub left: usize,
    pub right: usize,
    pub parent: usize,
    pub is_red: bool,
}

} // verus!
