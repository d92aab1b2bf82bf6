use vstd::prelude::*;

verus! {

/// A readable, seekable supply of bytes.
///
/// A source is *faithful* when it behaves like a fixed string of bytes, `content`, with a
/// read position, `position`: a read delivers the bytes at the position and moves past
/// them, a seek sets the position, and nothing ever changes the content. Every promise
/// below is made for faithful sources only. A type that leaves `faithful` as it is
/// declared here promises nothing, and code that uses it relies on nothing: whatever
/// such a source delivers is checked before use.
pub trait ByteSource {
    /// The source keeps the promises of this trait with respect to `content` and
    /// `position`.
    open spec fn faithful(&self) -> bool {
        false
    }

    /// All bytes of the source, from its first to its last.
    open spec fn content(&self) -> Seq<u8> {
        Seq::empty()
    }

    /// Offset of the byte that the next read delivers first.
    open spec fn position(&self) -> u64 {
        0
    }

    /// Reading, seeking and asking for the position never fail.
    open spec fn infallible(&self) -> bool {
        false
    }

    /// A read fills the whole buffer unless the content ends first.
    open spec fn reads_fully(&self) -> bool {
        false
    }

    /// Reads up to `buf.len()` bytes from the current position into the front of `buf`
    /// and moves the position past them. The result is the number of bytes delivered;
    /// it is zero exactly when `buf` is empty or no content is left.
    fn read(&mut self, buf: &mut Vec<u8>) -> (r: Result<usize, String>)
        ensures
            final(self).faithful() == old(self).faithful(),
            final(self).content() == old(self).content(),
            final(self).infallible() == old(self).infallible(),
            final(self).reads_fully() == old(self).reads_fully(),
            old(self).faithful() ==> final(buf).len() == old(buf).len(),
            old(self).faithful() && old(self).infallible() ==> r is Ok,
            old(self).faithful() ==> (r matches Ok(n) ==> {
                &&& n <= old(buf).len()
                &&& n <= remaining(old(self).content(), old(self).position())
                &&& final(self).position() == old(self).position() + n
                &&& forall|i: int|
                    0 <= i < n ==> #[trigger] final(buf)[i] == old(self).content()[
                        old(self).position() + i]
                &&& n == 0 <==> old(buf).len() == 0 || remaining(
                    old(self).content(),
                    old(self).position(),
                ) == 0
                &&& old(self).reads_fully() ==> n == old(buf).len() || n == remaining(
                    old(self).content(),
                    old(self).position(),
                )
            }),
    ;

    /// Moves the position to the absolute offset `target`, which may lie past the end.
    fn seek(&mut self, target: u64) -> (r: Result<(), String>)
        ensures
            final(self).faithful() == old(self).faithful(),
            final(self).content() == old(self).content(),
            final(self).infallible() == old(self).infallible(),
            final(self).reads_fully() == old(self).reads_fully(),
            old(self).faithful() && old(self).infallible() ==> r is Ok,
            old(self).faithful() && r is Ok ==> final(self).position() == target,
    ;

    /// Reports the current position without moving it.
    fn stream_position(&mut self) -> (r: Result<u64, String>)
        ensures
            final(self).faithful() == old(self).faithful(),
            final(self).content() == old(self).content(),
            final(self).infallible() == old(self).infallible(),
            final(self).reads_fully() == old(self).reads_fully(),
            old(self).faithful() && old(self).infallible() ==> r is Ok,
            old(self).faithful() ==> (r matches Ok(p) ==> p == old(self).position() && final(
                self
            ).position() == p),
    ;
}

/// `after` is `before` but for its position: the same content and the same promises.
pub open spec fn same_source<S: ByteSource>(before: &S, after: &S) -> bool {
    &&& after.faithful() == before.faithful()
    &&& after.content() == before.content()
    &&& after.infallible() == before.infallible()
    &&& after.reads_fully() == before.reads_fully()
}

/// Number of bytes of `content` at and after offset `position`.
pub open spec fn remaining(content: Seq<u8>, position: u64) -> nat {
    if position < content.len() {
        (content.len() - position) as nat
    } else {
        0
    }
}

/// A faithful source held in memory. Its operations never fail. A source made with a
/// chunk limit delivers at most that many bytes per read, which makes short reads
/// reproducible.
pub struct MemorySource {
    data: Vec<u8>,
    pos: u64,
    chunk: usize,
}

impl MemorySource {
    /// A source over `data`, positioned at its first byte, that reads fully.
    pub fn new(data: Vec<u8>) -> (s: Self)
        ensures
            s.content() == data@,
            s.position() == 0,
            s.reads_fully(),
    {
        MemorySource { data, pos: 0, chunk: usize::MAX }
    }

    /// A source over `data`, positioned at its first byte, whose reads deliver at most
    /// `chunk` bytes each.
    pub fn with_chunk_limit(data: Vec<u8>, chunk: usize) -> (s: Self)
        requires
            chunk > 0,
        ensures
            s.content() == data@,
            s.position() == 0,
            s.chunk_limit() == chunk,
    {
        MemorySource { data, pos: 0, chunk }
    }

    /// Largest number of bytes one read delivers.
    pub closed spec fn chunk_limit(&self) -> usize {
        self.chunk
    }

    #[verifier::type_invariant]
    spec fn delivers_something(&self) -> bool {
        self.chunk > 0
    }
}

impl ByteSource for MemorySource {
    open spec fn faithful(&self) -> bool {
        true
    }

    closed spec fn content(&self) -> Seq<u8> {
        self.data@
    }

    closed spec fn position(&self) -> u64 {
        self.pos
    }

    open spec fn infallible(&self) -> bool {
        true
    }

    open spec fn reads_fully(&self) -> bool {
        self.chunk_limit() == usize::MAX
    }

    fn read(&mut self, buf: &mut Vec<u8>) -> (r: Result<usize, String>)
        ensures
            r matches Ok(n) ==> n <= old(self).chunk_limit(),
            final(self).chunk_limit() == old(self).chunk_limit(),
    {
        proof {
            use_type_invariant(&*self);
        }
        let len: usize = self.data.len();
        if self.pos >= len as u64 {
            return Ok(0);
        }
        let start: usize = self.pos as usize;
        let left: usize = len - start;
        let mut want: usize = buf.len();
        if left < want {
            want = left;
        }
        if self.chunk < want {
            want = self.chunk;
        }
        let mut i: usize = 0;
        while i < want
            invariant
                i <= want,
                want <= buf.len(),
                start + want <= self.data.len(),
                buf.len() == old(buf).len(),
                forall|j: int| 0 <= j < i ==> #[trigger] buf[j] == self.data[start + j],
            decreases want - i,
        {
            buf.set(i, self.data[start + i]);
            i += 1;
        }
        self.pos = self.pos + want as u64;
        Ok(want)
    }

    fn seek(&mut self, target: u64) -> (r: Result<(), String>)
        ensures
            final(self).chunk_limit() == old(self).chunk_limit(),
    {
        proof {
            use_type_invariant(&*self);
        }
        self.pos = target;
        Ok(())
    }

    fn stream_position(&mut self) -> (r: Result<u64, String>)
        ensures
            final(self).chunk_limit() == old(self).chunk_limit(),
    {
        Ok(self.pos)
    }
}

} // verus!
