//! The consumer of a full pass, and the record of every call made to it.

use vstd::prelude::*;
use crate::codec::Block;

verus! {

/// A consumer of the blocks of a full pass.
pub trait Callback {
    /// Called once before any block.
    fn on_start(&mut self) -> Result<(), String>;

    /// Called once per block, in height order.
    fn on_block(&mut self, block: &Block, height: u64) -> Result<(), String>;

    /// Called once after the last block, also when there was none.
    fn on_complete(&mut self) -> Result<(), String>;
}

/// One call made to a consumer, and whether it succeeded.
#[derive(Debug, Clone, Copy, PartialEq, Eq, Structural)]
pub enum CallEvent {
    Start(bool),
    Block(u64, bool),
    Complete(bool),
}

/// A consumer together with the record of the calls made to it. The record
/// grows only through the methods below, each of which makes the call.
pub struct Consumer<C: Callback> {
    pub callback: C,
    log: Vec<CallEvent>,
}

impl<C: Callback> Consumer<C> {
    /// The calls made so far, in order.
    pub closed spec fn calls(&self) -> Seq<CallEvent> {
        self.log@
    }

    pub fn new(callback: C) -> (r: Consumer<C>)
        ensures
            r.calls() == Seq::<CallEvent>::empty(),
    {
        Consumer { callback, log: Vec::new() }
    }

    /// The calls made so far, in order.
    pub fn log(&self) -> (r: &Vec<CallEvent>)
        ensures
            r@ == self.calls(),
    {
        &self.log
    }

    /// Calls `on_start`; returns whether it succeeded.
    pub fn start(&mut self) -> (ok: bool)
        ensures
            final(self).calls() == old(self).calls().push(CallEvent::Start(ok)),
    {
        let ok = self.callback.on_start().is_ok();
        self.log.push(CallEvent::Start(ok));
        ok
    }

    /// Calls `on_block` with the block at `height`; returns whether it
    /// succeeded.
    pub fn block(&mut self, block: &Block, height: u64) -> (ok: bool)
        ensures
            final(self).calls() == old(self).calls().push(CallEvent::Block(height, ok)),
    {
        let ok = self.callback.on_block(block, height).is_ok();
        self.log.push(CallEvent::Block(height, ok));
        ok
    }

    /// Calls `on_complete`; returns whether it succeeded.
    pub fn complete(&mut self) -> (ok: bool)
        ensures
            final(self).calls() == old(self).calls().push(CallEvent::Complete(ok)),
    {
        let ok = self.callback.on_complete().is_ok();
        self.log.push(CallEvent::Complete(ok));
        ok
    }
}

/// Successful `on_block` calls for heights `from` up to, not including, `to`.
pub open spec fn blocks_delivered(from: nat, to: nat) -> Seq<CallEvent> {
    Seq::new((to - from) as nat, |i: int| CallEvent::Block((from + i) as u64, true))
}

} // verus!
