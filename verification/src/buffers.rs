//! The sizing rules of the buffer pool (the pool itself lives with its lock in the application).
use vstd::prelude::*;

use crate::error::{ParaflateError, ParaflateResult};

verus! {

#[derive(Clone, Copy, Debug, PartialEq, Eq, Structural)]
pub struct BufferPoolConfig {
    pub buffer_len: usize,
    pub max_buffers: usize,
}

impl Default for BufferPoolConfig {
    fn default() -> (r: Self)
        ensures
            r == (BufferPoolConfig { buffer_len: 0x10_0000usize, max_buffers: 64 }),
    {
        BufferPoolConfig { buffer_len: 1024 * 1024, max_buffers: 64 }
    }
}

impl BufferPoolConfig {
    /// A pool needs buffers of some length and room for at least one of them.
    pub fn validate(&self) -> (r: ParaflateResult<()>)
        ensures
            r is Ok <==> self.buffer_len != 0 && self.max_buffers != 0,
            r matches Err(e) ==> e matches ParaflateError::InvariantViolated(m) && m@ == "buffer pool dimensions"@,
    {
        if self.buffer_len == 0 || self.max_buffers == 0 {
            return Err(ParaflateError::InvariantViolated("buffer pool dimensions".to_owned()));
        }
        Ok(())
    }

    /// The capacity of a freshly allocated buffer: the buffer length, at least 4096.
    pub fn fresh_capacity(&self) -> (r: usize)
        ensures
            r == if self.buffer_len < 4096 {
                4096
            } else {
                self.buffer_len
            },
    {
        if self.buffer_len < 4096 {
            4096
        } else {
            self.buffer_len
        }
    }

    /// Whether a returned buffer goes back on the free list: the list has room and the buffer
    /// is still full size.
    pub fn recycles(&self, free_count: usize, capacity: usize) -> (r: bool)
        ensures
            r == (free_count < self.max_buffers && capacity >= self.buffer_len),
    {
        free_count < self.max_buffers && capacity >= self.buffer_len
    }
}

} // verus!
