//! A byte queue that is filled a chunk at a time and emptied a byte at a
//! time, so that a source is asked for its bytes seldom.

use vstd::prelude::*;

verus! {

/// The bytes of `held` in the order in which they leave: the last first.
pub open spec fn leaving_order(held: Seq<u8>) -> Seq<u8> {
    Seq::new(held.len(), |i: int| held[held.len() - 1 - i])
}

/// The chunk that was read last, as far as it was not handed out yet.
pub struct Buffered {
    buffer: Vec<u8>,
    capacity: usize,
}

impl View for Buffered {
    type V = Seq<u8>;

    /// The bytes that wait, the next one first.
    closed spec fn view(&self) -> Seq<u8> {
        leaving_order(self.buffer@)
    }
}

impl Buffered {
    /// The size of the chunks that are to be read.
    pub closed spec fn chunk_size(&self) -> usize {
        self.capacity
    }

    /// An empty buffer for chunks of up to `cap` bytes.
    pub fn with_capacity(cap: usize) -> (b: Self)
        ensures
            b@ == Seq::<u8>::empty(),
            b.chunk_size() == cap,
    {
        let b = Buffered { buffer: Vec::with_capacity(cap), capacity: cap };
        assert(b@ =~= Seq::<u8>::empty());
        b
    }

    /// How many bytes a chunk may have.
    pub fn capacity(&self) -> (cap: usize)
        ensures
            cap == self.chunk_size(),
    {
        self.capacity
    }

    /// The next byte that waits, or `None` where a chunk must be read
    /// first.
    pub fn next_byte(&mut self) -> (r: Option<u8>)
        ensures
            old(self)@.len() == 0 ==> r is None && final(self)@ == old(self)@,
            old(self)@.len() > 0 ==> r == Some(old(self)@[0]) && final(self)@ == old(
                self,
            )@.drop_first(),
            final(self).chunk_size() == old(self).chunk_size(),
    {
        let r = self.buffer.pop();
        proof {
            if old(self)@.len() > 0 {
                assert(self@ =~= old(self)@.drop_first());
            } else {
                assert(self@ =~= old(self)@);
            }
        }
        r
    }

    /// Takes the chunk that was read in place of what the buffer held, and
    /// says whether the chunk has any byte: an empty chunk is the end of
    /// the source.
    pub fn read_buffer(&mut self, chunk: &[u8]) -> (any: bool)
        ensures
            final(self)@ == chunk@,
            any == (chunk@.len() > 0),
            final(self).chunk_size() == old(self).chunk_size(),
    {
        self.buffer.clear();
        let len = chunk.len();
        let mut i: usize = len;
        while i > 0
            invariant
                len == chunk@.len(),
                i <= len,
                self.capacity == old(self).capacity,
                self.buffer@.len() == len - i,
                forall|j: int| 0 <= j < len - i ==> self.buffer@[j] == chunk@[len - 1 - j],
            decreases i,
        {
            i -= 1;
            self.buffer.push(chunk[i]);
        }
        assert(self@ =~= chunk@);
        len > 0
    }
}

/// What a byte queue answers when it is asked for the next byte.
#[derive(Debug, Clone, Copy, PartialEq, Eq, Structural)]
pub enum Fetch {
    /// The next byte.
    Byte(u8),
    /// No byte waits: a chunk of up to so many bytes is to be read and
    /// handed to [`BufferedBytes::refill`].
    Read(usize),
    /// The source has ended.
    End,
}

/// A byte queue over a source that ends: once the source has handed in an
/// empty chunk, or has failed, the queue stays at its end.
pub struct BufferedBytes {
    buffer: Buffered,
    eof: bool,
}

impl BufferedBytes {
    /// The bytes that wait, the next one first.
    pub closed spec fn waiting(&self) -> Seq<u8> {
        self.buffer@
    }

    /// Whether the source has ended.
    pub closed spec fn ended(&self) -> bool {
        self.eof
    }

    /// The size of the chunks that are to be read.
    pub closed spec fn chunk_size(&self) -> usize {
        self.buffer.chunk_size()
    }

    /// An empty queue that asks for chunks of up to `cap` bytes.
    pub fn with_capacity(cap: usize) -> (q: Self)
        ensures
            q.waiting() == Seq::<u8>::empty(),
            !q.ended(),
            q.chunk_size() == cap,
    {
        BufferedBytes { buffer: Buffered::with_capacity(cap), eof: false }
    }

    /// An empty queue that asks for chunks of up to 1024 bytes.
    pub fn new() -> (q: Self)
        ensures
            q.waiting() == Seq::<u8>::empty(),
            !q.ended(),
            q.chunk_size() == 1024,
    {
        Self::with_capacity(1024)
    }

    /// The next byte, a request for a chunk where none waits, or the end.
    pub fn next(&mut self) -> (r: Fetch)
        ensures
            final(self).ended() == old(self).ended(),
            final(self).chunk_size() == old(self).chunk_size(),
            r == if old(self).ended() {
                Fetch::End
            } else if old(self).waiting().len() > 0 {
                Fetch::Byte(old(self).waiting()[0])
            } else {
                Fetch::Read(old(self).chunk_size())
            },
            final(self).waiting() == if !old(self).ended() && old(self).waiting().len() > 0 {
                old(self).waiting().drop_first()
            } else {
                old(self).waiting()
            },
    {
        if self.eof {
            Fetch::End
        } else {
            match self.buffer.next_byte() {
                Some(byte) => Fetch::Byte(byte),
                None => Fetch::Read(self.buffer.capacity()),
            }
        }
    }

    /// Takes the chunk that was read. An empty chunk ends the source.
    pub fn refill(&mut self, chunk: &[u8])
        ensures
            final(self).waiting() == chunk@,
            final(self).ended() == (old(self).ended() || chunk@.len() == 0),
            final(self).chunk_size() == old(self).chunk_size(),
    {
        if !self.buffer.read_buffer(chunk) {
            self.eof = true;
        }
    }

    /// Notes that the source has failed: the queue is at its end.
    pub fn fail(&mut self)
        ensures
            final(self).ended(),
            final(self).waiting() == old(self).waiting(),
            final(self).chunk_size() == old(self).chunk_size(),
    {
        self.eof = true;
    }
}

} // verus!
