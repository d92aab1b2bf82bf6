use vstd::prelude::*;

pub mod buffer;
pub mod files;
pub mod lines;
pub mod source;
pub mod utf8;

use crate::io::lines::{line_bytes, LineSpan};
use crate::io::source::{same_source, ByteSource};

verus! {

/// Why a line could not be produced. `Io` and `Mismatch` are failures of input and
/// output; `Index` is a wrong request.
#[derive(Debug, PartialEq, Eq)]
pub enum ReadError {
    /// Reading, seeking or asking for the position failed, or led to a position or a
    /// length that cannot be represented. The text gives the reason.
    Io(String),
    /// A read that had to deliver `expected` bytes delivered `got` instead.
    Mismatch { expected: usize, got: usize },
    /// Line `index` was asked for, but only `count` lines exist.
    Index { index: usize, count: usize },
}

/// Outcome of one step of a reader: a value, the regular end of the data, or a failure.
#[derive(Debug, PartialEq, Eq)]
pub enum ReadState<T> {
    Successful(T),
    EndOfData,
    Error(ReadError),
}

/// A supplier of lines that hands them out one after another.
pub trait DataSource {
    /// The lines this supplier holds, in the order in which it hands them out.
    spec fn lines(&self) -> Seq<Seq<u8>>;

    /// Number of lines that this supplier holds.
    spec fn count(&self) -> nat;

    /// Number of lines handed out so far: the index of the next one.
    spec fn cursor(&self) -> nat;

    /// The supplier is in a state in which it can be used.
    spec fn usable(&self) -> bool;

    /// What the supplier hands out is what `lines` says.
    spec fn exact(&self) -> bool;

    /// No step of this supplier fails.
    spec fn dependable(&self) -> bool;

    /// Hands out the line at the cursor and moves the cursor past it, also when the
    /// line cannot be produced. Once the cursor has passed the last line the answer is
    /// `EndOfData`, and stays so.
    fn next_line(&mut self) -> (r: ReadState<Vec<u8>>)
        requires
            old(self).usable(),
        ensures
            final(self).usable(),
            final(self).lines() == old(self).lines(),
            final(self).count() == old(self).count(),
            final(self).exact() == old(self).exact(),
            final(self).dependable() == old(self).dependable(),
            r is EndOfData <==> old(self).cursor() >= old(self).count(),
            r is EndOfData ==> final(self).cursor() == old(self).cursor(),
            !(r is EndOfData) ==> final(self).cursor() == old(self).cursor() + 1,
            old(self).exact() ==> (r matches ReadState::Successful(bytes) ==> {
                bytes@ == old(self).lines()[old(self).cursor() as int]
            }),
            r matches ReadState::Error(e) ==> !(e is Index),
            old(self).dependable() ==> !(r is Error),
    ;
}

/// A descriptor that names a run of bytes of a source without holding the source.
pub trait DataReference {
    /// Where the run of bytes lies.
    spec fn span(&self) -> LineSpan;

    /// The bytes can be handed out without touching a source.
    spec fn is_cached(&self) -> bool;

    /// The reference is in a state in which it can be used.
    spec fn sound(&self) -> bool;

    /// The run lies inside `content`, and what is cached of it are those bytes.
    spec fn lies_in(&self, content: Seq<u8>) -> bool;

    /// Produces the bytes that the reference names: from the cache if they are
    /// cached, else from `source`, whose position is put back afterwards. A source that
    /// delivers another number of bytes than the reference names has failed.
    fn read<S: ByteSource>(&self, source: &mut S) -> (r: Result<Vec<u8>, ReadError>)
        requires
            self.sound(),
            old(source).faithful() ==> self.lies_in(old(source).content()),
        ensures
            same_source(old(source), final(source)),
            self.is_cached() ==> r is Ok && *final(source) == *old(source),
            r matches Ok(bytes) ==> bytes.len() == self.span().length,
            old(source).faithful() ==> (r matches Ok(bytes) ==> bytes@ == line_bytes(
                old(source).content(),
                self.span(),
            )),
            old(source).faithful() && !(r matches Err(ReadError::Io(_))) ==> {
                final(source).position() == old(source).position()
            },
            r matches Err(e) ==> !(e is Index),
            r matches Err(ReadError::Mismatch { expected, got }) ==> expected
                == self.span().length && got != expected,
            old(source).faithful() && old(source).infallible() && old(source).reads_fully()
                ==> r is Ok,
    ;
}

} // verus!
