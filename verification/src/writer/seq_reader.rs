//! Reading several sources as one: each source in turn, from the first to the
//! last.

use vstd::prelude::*;

verus! {

/// A sequence of readers and the position of the one that is read next.
///
/// The caller does the reading: it reads from the current reader and reports
/// how many bytes that gave. A read of no bytes means that the reader is
/// exhausted, and the next one takes its place.
pub struct SeqReader<R> {
    readers: Vec<R>,
    current: usize,
}

impl<R> SeqReader<R> {
    /// The readers, in order.
    pub closed spec fn readers(&self) -> Seq<R> {
        self.readers@
    }

    /// The number of readers that are exhausted.
    pub closed spec fn position(&self) -> nat {
        self.current as nat
    }

    #[verifier::type_invariant]
    closed spec fn in_range(&self) -> bool {
        self.current <= self.readers@.len()
    }

    /// Starts in front of the first of `readers`.
    pub fn new(readers: Vec<R>) -> (seq: Self)
        ensures
            seq.readers() == readers@,
            seq.position() == 0,
    {
        SeqReader { readers, current: 0 }
    }

    /// The number of readers.
    pub fn reader_len(&self) -> (count: usize)
        ensures
            count == self.readers().len(),
    {
        self.readers.len()
    }

    /// Reader `index`.
    pub fn get(&self, index: usize) -> (reader: &R)
        requires
            index < self.readers().len(),
        ensures
            *reader == self.readers()[index as int],
    {
        &self.readers[index]
    }

    /// The reader to read from.
    pub fn current_mut(&mut self) -> (reader: &mut R)
        requires
            old(self).position() < old(self).readers().len(),
        ensures
            *reader == old(self).readers()[old(self).position() as int],
            final(self).position() == old(self).position(),
            final(self).readers() == old(self).readers().update(
                old(self).position() as int,
                *final(reader),
            ),
    {
        let index = self.current;
        &mut self.readers[index]
    }

    /// The index of the reader to read from, or `None` when every reader is
    /// exhausted: the sequence has then reached its end.
    pub fn current(&self) -> (index: Option<usize>)
        ensures
            self.position() <= self.readers().len(),
            index == if self.position() < self.readers().len() {
                Some(self.position() as usize)
            } else {
                None
            },
    {
        proof {
            use_type_invariant(self);
        }
        if self.current < self.readers.len() {
            Some(self.current)
        } else {
            None
        }
    }

    /// Takes note that reading from the current reader gave `count` bytes.
    /// Returns whether the read stands as a read of the sequence: a read of no
    /// bytes does not, the sequence moves on to the next reader instead.
    pub fn after_read(&mut self, count: usize) -> (delivered: bool)
        requires
            old(self).position() < old(self).readers().len(),
        ensures
            delivered == (count != 0),
            final(self).readers() == old(self).readers(),
            final(self).position() == if count == 0 {
                old(self).position() + 1
            } else {
                old(self).position()
            },
    {
        let readers: usize = self.readers.len();
        if count == 0 {
            assert(self.current < readers);
            self.current = self.current + 1;
            false
        } else {
            true
        }
    }

    /// Gives the readers back.
    pub fn into_readers(self) -> (readers: Vec<R>)
        ensures
            readers@ == self.readers(),
    {
        self.readers
    }
}

} // verus!
