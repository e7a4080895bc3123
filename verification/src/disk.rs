//! What the client keeps count of while it writes an image to disk.

use vstd::prelude::*;

verus! {

/// How far the writing of an image has got.
#[derive(Clone, Copy, Debug, PartialEq, Eq, Structural)]
pub struct WriteProgress {
    /// The size of the image.
    pub image_size: u64,
    /// The number of bytes written, counting a chunk each time it is written.
    pub count: u64,
    /// What `count` was at the last report.
    pub last_count: u64,
}

/// `a + b`, or the greatest 64-bit number where that is less.
pub open spec fn capped_sum(a: u64, b: nat) -> u64 {
    if a + b <= u64::MAX {
        (a + b) as u64
    } else {
        u64::MAX
    }
}

impl WriteProgress {
    /// The number of bytes that are still to be written: none where chunks
    /// that were written twice have taken the count past the image's size.
    pub open spec fn spec_bytes_left(&self) -> u64 {
        if self.count <= self.image_size {
            (self.image_size - self.count) as u64
        } else {
            0
        }
    }

    /// Nothing written of an image of `image_size` bytes.
    pub fn new(image_size: u64) -> (p: WriteProgress)
        ensures
            p == (WriteProgress { image_size, count: 0, last_count: 0 }),
    {
        WriteProgress { image_size, count: 0, last_count: 0 }
    }

    /// Tells whether a file of `file_len` bytes has room for the image.
    pub fn fits_in(&self, file_len: u64) -> (r: bool)
        ensures
            r == (file_len >= self.image_size),
    {
        file_len >= self.image_size
    }

    /// Takes note of a chunk of `written` bytes that went to the disk.
    pub fn wrote(&mut self, written: usize)
        ensures
            *final(self) == (WriteProgress {
                count: capped_sum(old(self).count, written as nat),
                ..*old(self)
            }),
    {
        let n = written as u64;
        if n > u64::MAX - self.count {
            self.count = u64::MAX;
        } else {
            self.count = self.count + n;
        }
    }

    /// The number of bytes that are still to be written.
    #[verifier::when_used_as_spec(spec_bytes_left)]
    pub fn bytes_left(&self) -> (left: u64)
        ensures
            left == self.spec_bytes_left(),
    {
        if self.count <= self.image_size {
            self.image_size - self.count
        } else {
            0
        }
    }

    /// The number of bytes written since the last report; the next report
    /// counts from here.
    pub fn report(&mut self) -> (since: u64)
        ensures
            since == if old(self).count >= old(self).last_count {
                (old(self).count - old(self).last_count) as u64
            } else {
                0
            },
            *final(self) == (WriteProgress { last_count: old(self).count, ..*old(self) }),
    {
        let since = if self.count >= self.last_count {
            self.count - self.last_count
        } else {
            0
        };
        self.last_count = self.count;
        since
    }
}

} // verus!
