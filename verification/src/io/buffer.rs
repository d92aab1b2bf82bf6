use crate::io::source::{same_source, ByteSource};
use crate::io::{ReadError, ReadState};
use vstd::prelude::*;

verus! {

/// Number of bytes that one refill of a buffer asks its source for.
pub const BUFFER_SIZE: usize = 65535;

/// A read-ahead buffer of fixed capacity in front of a source, for the scanner's use.
///
/// It hands out the bytes of the source one by one and asks the source for more only
/// when it holds none. It knows the absolute offset of the next byte that it hands out.
/// It stays in step with its source only as long as nothing else moves the source.
pub(crate) struct ByteBuffer {
    data: Vec<u8>,
    cursor: usize,
    filled: usize,
    base: u64,
}

impl ByteBuffer {
    /// The cursor lies inside what is filled, what is filled inside the storage, and
    /// the offset of every buffered byte can be represented.
    pub(crate) closed spec fn wf(&self) -> bool {
        &&& self.cursor <= self.filled <= self.data.len()
        &&& self.base + self.filled <= u64::MAX
    }

    /// Absolute offset of the byte that is handed out next.
    pub(crate) closed spec fn position(&self) -> u64 {
        (self.base + self.cursor) as u64
    }

    /// Number of bytes that were read ahead and not handed out yet.
    pub(crate) closed spec fn buffered(&self) -> nat {
        (self.filled - self.cursor) as nat
    }

    /// The buffer is in step with `source`: if the source is faithful, it stands
    /// behind the last buffered byte, and the buffered bytes are the bytes of its
    /// content at their offsets.
    pub(crate) closed spec fn mirrors<S: ByteSource>(&self, source: &S) -> bool {
        source.faithful() ==> {
            &&& self.data.len() > 0
            &&& source.position() == self.base + self.filled
            &&& self.filled > 0 ==> self.base + self.filled <= source.content().len()
            &&& forall|i: int|
                0 <= i < self.filled ==> #[trigger] self.data[i] == source.content()[self.base
                    + i]
        }
    }

    /// Being in step depends on the source's position and content alone.
    pub(crate) proof fn lemma_mirrors_same<S: ByteSource>(&self, before: &S, after: &S)
        requires
            self.mirrors(before),
            same_source(before, after),
            before.faithful() ==> after.position() == before.position(),
        ensures
            self.mirrors(after),
    {
    }

    /// An empty buffer in front of `source`, at the position where the source stands.
    pub(crate) fn attach<S: ByteSource>(source: &mut S) -> (r: Result<Self, ReadError>)
        ensures
            same_source(old(source), final(source)),
            r matches Ok(buffer) ==> {
                &&& buffer.wf()
                &&& buffer.mirrors(final(source))
                &&& buffer.buffered() == 0
                &&& old(source).faithful() ==> buffer.position() == old(source).position()
            },
            r matches Err(e) ==> e is Io,
            old(source).faithful() && old(source).infallible() ==> r is Ok,
    {
        match source.stream_position() {
            Ok(position) => Ok(
                ByteBuffer { data: vec![0u8; BUFFER_SIZE], cursor: 0, filled: 0, base: position },
            ),
            Err(reason) => Err(ReadError::Io(reason)),
        }
    }

    /// Absolute offset of the byte that is handed out next.
    pub(crate) fn current_position(&self) -> (p: u64)
        requires
            self.wf(),
        ensures
            p == self.position(),
    {
        self.base + self.cursor as u64
    }

    /// Replaces the content of the exhausted buffer by what the source delivers next.
    /// `EndOfData` when the source delivers nothing.
    fn refill_buffer<S: ByteSource>(&mut self, source: &mut S) -> (r: ReadState<()>)
        requires
            old(self).wf(),
            old(self).mirrors(old(source)),
            old(self).buffered() == 0,
        ensures
            final(self).wf(),
            same_source(old(source), final(source)),
            !(r is Error) ==> final(self).mirrors(final(source)),
            final(self).position() == old(self).position(),
            r is Successful ==> final(self).buffered() > 0,
            !(r is Successful) ==> final(self).buffered() == 0,
            r matches ReadState::Error(e) ==> !(e is Index),
            old(source).faithful() && r is EndOfData ==> {
                old(self).position() >= old(source).content().len()
            },
            old(source).faithful() && old(source).infallible() ==> !(r is Error),
    {
        let start: u64 = self.base + self.filled as u64;
        self.base = start;
        self.cursor = 0;
        self.filled = 0;
        match source.read(&mut self.data) {
            Err(reason) => ReadState::Error(ReadError::Io(reason)),
            Ok(n) => {
                let capacity: usize = self.data.len();
                if n == 0 {
                    ReadState::EndOfData
                } else if n > capacity {
                    ReadState::Error(ReadError::Mismatch { expected: capacity, got: n })
                } else if n as u64 > u64::MAX - start {
                    ReadState::Error(ReadError::Io("position out of range".to_owned()))
                } else {
                    self.filled = n;
                    ReadState::Successful(())
                }
            },
        }
    }

    /// The next byte of the source, which stays the next byte. The buffer is refilled
    /// first if it holds nothing; `EndOfData` when the source has nothing more.
    pub(crate) fn peek_byte<S: ByteSource>(&mut self, source: &mut S) -> (r: ReadState<u8>)
        requires
            old(self).wf(),
            old(self).mirrors(old(source)),
        ensures
            final(self).wf(),
            same_source(old(source), final(source)),
            !(r is Error) ==> final(self).mirrors(final(source)),
            final(self).position() == old(self).position(),
            r is Successful <==> final(self).buffered() > 0,
            r matches ReadState::Error(e) ==> !(e is Index),
            old(source).faithful() ==> (r matches ReadState::Successful(b) ==> {
                &&& old(self).position() < old(source).content().len()
                &&& b == old(source).content()[old(self).position() as int]
            }),
            old(source).faithful() && r is EndOfData ==> {
                old(self).position() >= old(source).content().len()
            },
            old(source).faithful() && old(source).infallible() ==> !(r is Error),
    {
        if self.cursor >= self.filled {
            match self.refill_buffer(source) {
                ReadState::Successful(_) => {},
                ReadState::EndOfData => {
                    return ReadState::EndOfData;
                },
                ReadState::Error(e) => {
                    return ReadState::Error(e);
                },
            }
        }
        ReadState::Successful(self.data[self.cursor])
    }

    /// Steps over the byte that `peek_byte` showed.
    pub(crate) fn advance<S: ByteSource>(&mut self)
        requires
            old(self).wf(),
            old(self).buffered() > 0,
        ensures
            final(self).wf(),
            final(self).position() == old(self).position() + 1,
            final(self).buffered() == old(self).buffered() - 1,
            forall|source: &S| old(self).mirrors(source) ==> final(self).mirrors(source),
    {
        self.cursor = self.cursor + 1;
    }

    /// The next byte of the source. The buffer is refilled first if it holds nothing;
    /// `EndOfData` when the source has nothing more.
    pub(crate) fn next_byte<S: ByteSource>(&mut self, source: &mut S) -> (r: ReadState<u8>)
        requires
            old(self).wf(),
            old(self).mirrors(old(source)),
        ensures
            final(self).wf(),
            same_source(old(source), final(source)),
            !(r is Error) ==> final(self).mirrors(final(source)),
            r is Successful ==> final(self).position() == old(self).position() + 1,
            !(r is Successful) ==> final(self).position() == old(self).position(),
            r matches ReadState::Error(e) ==> !(e is Index),
            old(source).faithful() ==> (r matches ReadState::Successful(b) ==> {
                &&& old(self).position() < old(source).content().len()
                &&& b == old(source).content()[old(self).position() as int]
            }),
            old(source).faithful() && r is EndOfData ==> {
                old(self).position() >= old(source).content().len()
            },
            old(source).faithful() && old(source).infallible() ==> !(r is Error),
    {
        let r = self.peek_byte(source);
        if let ReadState::Successful(_) = r {
            self.cursor = self.cursor + 1;
        }
        r
    }
}

} // verus!
