//! Results and options of the transfer of bytes between blocks: whether an
//! insertion happened, whether bytes were left over and how many.
use crate::algoritm::cursors::Cursor;
use vstd::prelude::*;

verus! {

#[derive(Debug, Clone, Copy, PartialEq, Eq, Structural)]
pub enum InsertResultItem {
    /// The buffer was already full.
    BufferIsFull,
    /// Everything was inserted.
    InsertedWithoutRemaining,
    /// Some bytes were left over.
    InsertedWithRemaining,
    Fail,
}

#[derive(Debug, Clone, Copy, PartialEq, Eq, Structural)]
pub enum BufferStates {
    Full,
    Empty,
    PartiallyFull,
}

#[derive(Debug, Clone, Copy, PartialEq, Eq, Structural)]
pub enum TransitOption {
    /// Insert at the start.
    InsertBegin,
    /// Insert at the end.
    InsertEnd,
    /// Insert at the position the cursor names.
    InsertInPos,
    /// Delete the bytes before the cursor's position.
    DeletePosBytesToBegin,
    /// Delete the bytes from the cursor's position to the end.
    DeletePosBytesToEnd,
    /// Delete eight bytes at the cursor's position.
    DeletePosDefault,
    /// Delete `indicator` bytes at the cursor's position.
    DeletePosToIndicator,
    Finalize,
}

#[derive(Debug, Clone, Copy, PartialEq, Eq, Structural)]
pub enum TransitStates {
    /// Ignore the rest.
    Ignore,
    /// What is returned goes to the start of the next block.
    MoveToEnd,
    /// Take from the start of the next block and put it at the end of this one.
    MoveToBegin,
    /// Minor failure (not enough blocks).
    Error1,
    /// Medium failure (a block could not be made, try again).
    Error2,
    /// Severe failure (corrupt block or lost data).
    Error3,
    /// The operation is not allowed on this kind of entry.
    IlegalAcction,
    /// The operation completed.
    Success,
}

#[derive(Debug, Clone, Copy, PartialEq, Eq, Structural)]
pub enum LayerState {
    Obtained,
    Loaded,
    Generated,
    /// The disk is full.
    NotSpace,
    /// Beyond the range of the disk.
    OutOfRange,
}

/// Whether a transfer works on a directory (fixed entries) or on file bytes.
#[derive(Debug, Clone, Copy, PartialEq, Eq, Structural)]
pub enum TransportContext {
    Directory,
    File,
}

impl TransportContext {
    pub fn is_directory(&self) -> (b: bool)
        ensures
            b == (*self == TransportContext::Directory),
    {
        match self {
            TransportContext::Directory => true,
            TransportContext::File => false,
        }
    }
}

#[derive(Debug)]
pub struct InsertResult {
    pub result: InsertResultItem,
    pub state: BufferStates,
    pub remaining: usize,
    pub written: usize,
    pub remaining_bytes: Vec<u8>,
}

#[derive(Debug)]
pub struct TransitOptions<'a> {
    pub option: TransitOption,
    pub pos: &'a Cursor,
    pub indicator: usize,
    /// `false` to refuse an insertion that would go beyond the block.
    pub increment_size: bool,
    pub data: &'a Vec<u8>,
    pub context: TransportContext,
}

#[derive(Debug)]
pub struct TransitReturn {
    pub action: TransitOption,
    pub state: TransitStates,
    pub data: Vec<u8>,
    pub increment_size: bool,
    pub context: TransportContext,
}

/// The plain values of a `TransitReturn`.
pub struct TransitView {
    pub action: TransitOption,
    pub state: TransitStates,
    pub data: Seq<u8>,
    pub increment_size: bool,
    pub context: TransportContext,
}

impl View for TransitReturn {
    type V = TransitView;

    open spec fn view(&self) -> TransitView {
        TransitView {
            action: self.action,
            state: self.state,
            data: self.data@,
            increment_size: self.increment_size,
            context: self.context,
        }
    }
}

#[derive(Debug)]
pub struct LayerResult<T> {
    pub state: LayerState,
    pub result: T,
}

} // verus!
