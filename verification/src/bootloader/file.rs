//! Reading a whole file in as many reads as it takes.

use vstd::prelude::*;

verus! {

/// A file that is being read into a buffer of its own size.
#[derive(Clone, Copy, Debug, PartialEq, Eq, Structural)]
pub struct FileRead {
    size: usize,
    filled: usize,
}

/// What to do next.
#[derive(Clone, Copy, Debug, PartialEq, Eq, Structural)]
pub enum ReadStep {
    /// Read into the buffer from this offset on.
    ReadFrom(usize),
    /// The buffer holds the whole file.
    Complete,
}

/// The file ended before the bytes its own metadata promised.
#[derive(Clone, Copy, Debug, PartialEq, Eq, Structural)]
pub struct EndOfFile;

impl FileRead {
    /// The size the file reports.
    pub closed spec fn size(&self) -> usize {
        self.size
    }

    /// How many bytes are in the buffer.
    pub closed spec fn filled(&self) -> usize {
        self.filled
    }

    /// No more was read than the file holds.
    pub open spec fn wf(&self) -> bool {
        self.filled() <= self.size()
    }

    /// Start reading a file of `size` bytes.
    pub fn new(size: usize) -> (read: FileRead)
        ensures
            read.wf(),
            read.size() == size,
            read.filled() == 0,
    {
        FileRead { size, filled: 0 }
    }

    /// Whether there is more to read, and where it goes.
    pub fn next(&self) -> (step: ReadStep)
        requires
            self.wf(),
        ensures
            step == (if self.filled() < self.size() {
                ReadStep::ReadFrom(self.filled())
            } else {
                ReadStep::Complete
            }),
    {
        if self.filled < self.size {
            ReadStep::ReadFrom(self.filled)
        } else {
            ReadStep::Complete
        }
    }

    /// Take note that one read gave `read` bytes.
    ///
    /// Nothing at all means the file is shorter than it reports. A short
    /// buffer would surface later as a baffling parse error, so this fails
    /// where the cause is obvious.
    pub fn absorb(&mut self, read: usize) -> (outcome: Result<(), EndOfFile>)
        requires
            old(self).wf(),
            read <= old(self).size() - old(self).filled(),
        ensures
            final(self).wf(),
            final(self).size() == old(self).size(),
            outcome is Err <==> read == 0,
            final(self).filled() == old(self).filled() + read,
    {
        if read == 0 {
            return Err(EndOfFile);
        }
        self.filled = self.filled + read;
        Ok(())
    }
}

/// Every read that is not an error brings the end closer, so reading ends;
/// and it ends with exactly the bytes the file reported.
pub proof fn reading_ends_with_the_whole_file(before: FileRead, after: FileRead, read: usize)
    requires
        before.wf(),
        after.wf(),
        before.filled() < before.size(),
        read > 0,
        after.size() == before.size(),
        after.filled() == before.filled() + read,
    ensures
        0 <= after.size() - after.filled() < before.size() - before.filled(),
        !(after.filled() < after.size()) ==> after.filled() == after.size(),
{
}

} // verus!
