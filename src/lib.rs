//! Reconstructs the canonical chain of blocks from raw block archive files and
//! drives the decoding pipeline that hands each block, in height order, to a
//! consumer.

pub mod codec;
pub mod merkle;
pub mod chain;
pub mod storage;
pub mod scanner;
pub mod engine;
pub mod options;
pub mod archive;
pub mod consumer;
