use crate::io::lines::{
    ends_with_separator, gap, joined, lemma_line_count, lemma_round_trip, line_bytes,
    line_contents, line_spans, lines_from, ordered, separator_count, LineSpan,
};
use crate::io::source::{same_source, ByteSource};
use crate::io::utf8::{lemma_decode_consumes, Utf8Scanner};
use crate::io::{DataReference, DataSource, ReadError, ReadState};
use vstd::prelude::*;

verus! {

/// Names one line of a source by where it lies: the offset of its first byte and the
/// number of its bytes, without the separator that closed it. It may hold a copy of the
/// bytes as well.
pub struct FileRef {
    pos: u64,
    len: usize,
    content: Option<Vec<u8>>,
}

impl FileRef {
    /// The line ends at an offset that can be represented, and a cached copy has the
    /// length of the line.
    pub closed spec fn wf(&self) -> bool {
        &&& self.pos + self.len <= u64::MAX
        &&& self.content matches Some(bytes) ==> bytes.len() == self.len
    }

    /// The cached copy of the line, if there is one.
    pub closed spec fn cached(&self) -> Option<Seq<u8>> {
        match self.content {
            Some(bytes) => Some(bytes@),
            None => None,
        }
    }

    /// A reference to the `len` bytes at offset `pos`, without a cached copy.
    pub fn new(pos: u64, len: usize) -> (line: Self)
        requires
            pos + len <= u64::MAX,
        ensures
            line.wf(),
            line.span() == (LineSpan { offset: pos as nat, length: len as nat }),
            line.cached() is None,
    {
        FileRef { pos, len, content: None }
    }

    /// Offset of the first byte of the line.
    pub fn offset(&self) -> (offset: u64)
        ensures
            offset == self.span().offset,
    {
        self.pos
    }

    /// Number of bytes of the line.
    pub fn length(&self) -> (length: usize)
        ensures
            length == self.span().length,
    {
        self.len
    }

    /// Whether the reference holds a copy of the line.
    pub fn has_cached_content(&self) -> (cached: bool)
        ensures
            cached == self.is_cached(),
    {
        self.content.is_some()
    }

    /// The copy of the line that the reference holds, if it holds one.
    pub fn cached_content(&self) -> (copy: Option<&Vec<u8>>)
        ensures
            copy is Some == self.is_cached(),
            copy matches Some(bytes) ==> self.cached() == Some(bytes@),
    {
        self.content.as_ref()
    }
}

impl DataReference for FileRef {
    closed spec fn span(&self) -> LineSpan {
        LineSpan { offset: self.pos as nat, length: self.len as nat }
    }

    open spec fn is_cached(&self) -> bool {
        self.cached() is Some
    }

    open spec fn sound(&self) -> bool {
        self.wf()
    }

    open spec fn lies_in(&self, content: Seq<u8>) -> bool {
        &&& self.span().end() <= content.len()
        &&& self.cached() matches Some(bytes) ==> bytes == line_bytes(content, self.span())
    }

    fn read<S: ByteSource>(&self, source: &mut S) -> (r: Result<Vec<u8>, ReadError>)
        ensures
            self.cached() matches Some(copy) ==> (r matches Ok(bytes) && bytes@ == copy),
    {
        if let Some(bytes) = &self.content {
            return Ok(bytes.clone());
        }
        let here: u64 = match source.stream_position() {
            Ok(position) => position,
            Err(reason) => {
                return Err(ReadError::Io(reason));
            },
        };
        if let Err(reason) = source.seek(self.pos) {
            return Err(ReadError::Io(reason));
        }
        let mut buffer: Vec<u8> = vec![0u8; self.len];
        let got: usize = match source.read(&mut buffer) {
            Ok(n) => n,
            Err(reason) => {
                return Err(ReadError::Io(reason));
            },
        };
        if let Err(reason) = source.seek(here) {
            return Err(ReadError::Io(reason));
        }
        if got != self.len {
            return Err(ReadError::Mismatch { expected: self.len, got });
        }
        if buffer.len() != self.len {
            return Err(ReadError::Io("source changed the size of the buffer".to_owned()));
        }
        proof {
            if old(source).faithful() {
                assert(buffer@ =~= line_bytes(old(source).content(), self.span()));
            }
        }
        Ok(buffer)
    }
}

/// Finds the lines of a source in one pass, from the position at which the source stood
/// when the indexer was attached to it.
pub struct LineIndexer {
    scanner: Utf8Scanner,
    separator: u32,
    cache: bool,
}

impl LineIndexer {
    /// The scanner is well-formed.
    pub closed spec fn wf(&self) -> bool {
        self.scanner.wf()
    }

    /// Absolute offset at which the next line begins.
    pub closed spec fn position(&self) -> u64 {
        self.scanner.position()
    }

    /// The code point that closes a line.
    pub closed spec fn separator(&self) -> u32 {
        self.separator
    }

    /// Whether the lines found get a copy of their bytes.
    pub closed spec fn caches(&self) -> bool {
        self.cache
    }

    /// The indexer is in step with `source`.
    pub closed spec fn mirrors<S: ByteSource>(&self, source: &S) -> bool {
        self.scanner.mirrors(source)
    }

    /// An indexer in front of `source`, at the position where the source stands.
    pub fn attach<S: ByteSource>(source: &mut S, separator: u32, cache: bool) -> (r: Result<
        Self,
        ReadError,
    >)
        ensures
            same_source(old(source), final(source)),
            r matches Ok(indexer) ==> {
                &&& indexer.wf()
                &&& indexer.mirrors(final(source))
                &&& indexer.separator() == separator
                &&& indexer.caches() == cache
                &&& old(source).faithful() ==> indexer.position() == old(source).position()
            },
            r matches Err(e) ==> e is Io,
            old(source).faithful() && old(source).infallible() ==> r is Ok,
    {
        match Utf8Scanner::attach(source) {
            Ok(scanner) => Ok(LineIndexer { scanner, separator, cache }),
            Err(e) => Err(e),
        }
    }

    /// The reference to the line of `len` bytes at `pos`, with a copy of its bytes if
    /// the indexer caches. The copy is read from `source`, which is then put back to
    /// where it stood.
    fn close_line<S: ByteSource>(&self, source: &mut S, pos: u64, len: usize) -> (r: ReadState<
        FileRef,
    >)
        requires
            pos + len <= u64::MAX,
            old(source).faithful() ==> pos + len <= old(source).content().len(),
        ensures
            same_source(old(source), final(source)),
            !(r is EndOfData),
            r matches ReadState::Successful(line) ==> {
                &&& line.wf()
                &&& line.span() == (LineSpan { offset: pos as nat, length: len as nat })
                &&& line.is_cached() == self.caches()
                &&& old(source).faithful() ==> line.lies_in(old(source).content())
                &&& old(source).faithful() ==> final(source).position() == old(source).position()
            },
            r matches ReadState::Error(e) ==> !(e is Index),
            old(source).faithful() && old(source).infallible() && (self.caches() ==> old(
                source,
            ).reads_fully()) ==> r is Successful,
    {
        let line = FileRef::new(pos, len);
        if self.cache {
            match line.read(source) {
                Ok(bytes) => ReadState::Successful(FileRef { pos, len, content: Some(bytes) }),
                Err(e) => ReadState::Error(e),
            }
        } else {
            ReadState::Successful(line)
        }
    }

    /// Scans the next line of the source and returns the reference to it.
    ///
    /// The line ends in front of the next separator, or with the source. `EndOfData`
    /// when the source ends and no byte has been read since the line began.
    pub fn read_next_line_internal<S: ByteSource>(&mut self, source: &mut S) -> (r: ReadState<
        FileRef,
    >)
        requires
            old(self).wf(),
            old(self).mirrors(old(source)),
        ensures
            final(self).wf(),
            final(self).separator() == old(self).separator(),
            final(self).caches() == old(self).caches(),
            same_source(old(source), final(source)),
            !(r is Error) ==> final(self).mirrors(final(source)),
            r matches ReadState::Successful(line) ==> {
                &&& line.wf()
                &&& line.is_cached() == old(self).caches()
                &&& line.span().offset == old(self).position()
                &&& line.span().end() <= final(self).position()
                &&& old(self).position() < final(self).position()
                &&& old(source).faithful() ==> line.lies_in(old(source).content())
            },
            r is EndOfData ==> final(self).position() == old(self).position(),
            r matches ReadState::Error(e) ==> !(e is Index),
            old(source).faithful() ==> (r matches ReadState::Successful(line) ==> lines_from(
                old(source).content(),
                old(self).separator(),
                old(self).position() as nat,
            ) == seq![line.span()] + lines_from(
                old(source).content(),
                old(self).separator(),
                final(self).position() as nat,
            )),
            old(source).faithful() && r is EndOfData ==> lines_from(
                old(source).content(),
                old(self).separator(),
                old(self).position() as nat,
            ) == Seq::<LineSpan>::empty(),
            old(source).faithful() && old(source).infallible() && old(source).content().len()
                <= usize::MAX && (old(self).caches() ==> old(source).reads_fully()) ==> !(r
                is Error),
    {
        let ghost content = source.content();
        let start: u64 = self.scanner.current_position();
        loop
            invariant
                self.scanner.wf(),
                self.scanner.mirrors(source),
                self.separator == old(self).separator,
                self.cache == old(self).cache,
                same_source(old(source), source),
                content == old(source).content(),
                start == old(self).position(),
                start <= self.scanner.position(),
                source.faithful() ==> {
                    &&& start == self.scanner.position() || self.scanner.position()
                        <= content.len()
                    &&& line_spans(content, self.separator, start as nat, start as nat)
                        == line_spans(
                        content,
                        self.separator,
                        start as nat,
                        self.scanner.position() as nat,
                    )
                },
            decreases u64::MAX - self.scanner.position(),
        {
            let before: u64 = self.scanner.current_position();
            let state = self.scanner.next_utf8_char(source);
            let after: u64 = self.scanner.current_position();
            proof {
                lemma_decode_consumes(content, before as int);
            }
            let end: u64 = match state {
                ReadState::Error(e) => {
                    return ReadState::Error(e);
                },
                ReadState::EndOfData => {
                    if start < after {
                        after
                    } else {
                        return ReadState::EndOfData;
                    }
                },
                ReadState::Successful(c) => {
                    if c == self.separator {
                        before
                    } else {
                        continue ;
                    }
                },
            };
            let length: u64 = end - start;
            if length > usize::MAX as u64 {
                return ReadState::Error(ReadError::Io("line too long".to_owned()));
            }
            let ghost here = *source;
            let closed = self.close_line(source, start, length as usize);
            proof {
                if !(closed is Error) {
                    self.scanner.lemma_mirrors_same(&here, source);
                }
                if source.faithful() && after as nat >= content.len() {
                    assert(lines_from(content, self.separator, after as nat) == Seq::<
                        LineSpan,
                    >::empty());
                }
            }
            return closed;
        }
    }
}

/// Where the lines that `references` name lie, in order.
pub open spec fn spans_of(references: Seq<FileRef>) -> Seq<LineSpan> {
    Seq::new(references.len(), |i: int| references[i].span())
}

/// The copies that `references` hold of their lines, in order.
pub open spec fn copies_of(references: Seq<FileRef>) -> Seq<Option<Seq<u8>>> {
    Seq::new(references.len(), |i: int| references[i].cached())
}

/// The code point that closes a line unless another one is asked for: carriage return.
pub const DEFAULT_SEPARATOR: u32 = 13;

/// The lines of a source, and the source itself.
///
/// The lines are found once, when the reader is made. After that each line can be had
/// by its index, in any order, or one after another through a cursor. The reader owns
/// the source, so nothing else moves it.
pub struct FileReader<S: ByteSource> {
    source: S,
    separator: u32,
    cache: bool,
    origin: u64,
    references: Vec<FileRef>,
    ref_pos: usize,
}

impl<S: ByteSource> FileReader<S> {
    /// The source that the reader owns.
    pub closed spec fn source(&self) -> S {
        self.source
    }

    /// The code point that closes a line.
    pub closed spec fn separator(&self) -> u32 {
        self.separator
    }

    /// Whether each line has a copy of its bytes.
    pub closed spec fn caches(&self) -> bool {
        self.cache
    }

    /// Offset of the source at which the first line begins.
    pub closed spec fn origin(&self) -> u64 {
        self.origin
    }

    /// Where the lines lie, in order.
    pub closed spec fn spans(&self) -> Seq<LineSpan> {
        spans_of(self.references@)
    }

    /// The copies that the lines hold of their bytes, in order.
    pub closed spec fn copies(&self) -> Seq<Option<Seq<u8>>> {
        copies_of(self.references@)
    }

    /// Index of the line that `next_line` hands out next.
    pub closed spec fn position(&self) -> nat {
        self.ref_pos as nat
    }

    /// The cursor is at a line or behind the last one; every reference is sound and
    /// holds a copy exactly if the reader caches; offsets rise and no two lines overlap.
    /// If the source is faithful, the lines are exactly the lines of its content from
    /// `origin` on, and each copy holds the bytes of its line.
    pub closed spec fn wf(&self) -> bool {
        &&& self.ref_pos <= self.references.len()
        &&& forall|i: int|
            0 <= i < self.references.len() ==> {
                &&& (#[trigger] self.references[i]).wf()
                &&& self.references[i].is_cached() == self.cache
                &&& self.source.faithful() ==> self.references[i].lies_in(self.source.content())
            }
        &&& ordered(self.spans())
        &&& self.source.faithful() ==> self.spans() == lines_from(
            self.source.content(),
            self.separator,
            self.origin as nat,
        )
    }

    /// What a well-formed reader knows of its lines.
    pub proof fn lemma_index(&self)
        requires
            self.wf(),
        ensures
            self.position() <= self.spans().len(),
            self.copies().len() == self.spans().len(),
            ordered(self.spans()),
            forall|i: int|
                0 <= i < self.spans().len() ==> {
                    &&& (#[trigger] self.copies()[i] is Some) == self.caches()
                    &&& self.copies()[i] matches Some(bytes) ==> bytes.len()
                        == self.spans()[i].length
                },
            self.source().faithful() ==> {
                &&& self.spans() == lines_from(
                    self.source().content(),
                    self.separator(),
                    self.origin() as nat,
                )
                &&& forall|i: int|
                    0 <= i < self.spans().len() ==> {
                        &&& (#[trigger] self.spans()[i]).end() <= self.source().content().len()
                        &&& self.copies()[i] matches Some(bytes) ==> bytes == line_bytes(
                            self.source().content(),
                            self.spans()[i],
                        )
                    }
            },
    {
        assert forall|i: int| 0 <= i < self.spans().len() implies {
            &&& (#[trigger] self.copies()[i] is Some) == self.caches()
            &&& self.copies()[i] matches Some(bytes) ==> bytes.len() == self.spans()[i].length
        } by {
            assert(self.references[i].wf());
        }
        if self.source().faithful() {
            assert forall|i: int| 0 <= i < self.spans().len() implies {
                &&& (#[trigger] self.spans()[i]).end() <= self.source().content().len()
                &&& self.copies()[i] matches Some(bytes) ==> bytes == line_bytes(
                    self.source().content(),
                    self.spans()[i],
                )
            } by {
                assert(self.references[i].wf());
            }
        }
    }

    /// Indexes `source` from where it stands, with carriage return as the separator.
    /// With `cache`, each line gets a copy of its bytes. If anything fails, no reader is
    /// made.
    pub fn new(source: S, cache: bool) -> (r: Result<Self, ReadError>)
        ensures
            r matches Ok(reader) ==> {
                &&& reader.wf()
                &&& same_source(&source, &reader.source())
                &&& reader.separator() == DEFAULT_SEPARATOR
                &&& reader.caches() == cache
                &&& reader.position() == 0
                &&& source.faithful() ==> reader.origin() == source.position()
                &&& source.faithful() ==> reader.spans() == lines_from(
                    source.content(),
                    DEFAULT_SEPARATOR,
                    source.position() as nat,
                )
            },
            r matches Err(e) ==> !(e is Index),
            source.faithful() && source.infallible() && source.content().len() <= usize::MAX && (
            cache ==> source.reads_fully()) ==> r is Ok,
    {
        Self::with_separator(source, DEFAULT_SEPARATOR, cache)
    }

    /// Indexes `source` from where it stands, with `separator` as the code point that
    /// closes a line. With `cache`, each line gets a copy of its bytes. If anything
    /// fails, no reader is made.
    pub fn with_separator(source: S, separator: u32, cache: bool) -> (r: Result<Self, ReadError>)
        ensures
            r matches Ok(reader) ==> {
                &&& reader.wf()
                &&& same_source(&source, &reader.source())
                &&& reader.separator() == separator
                &&& reader.caches() == cache
                &&& reader.position() == 0
                &&& source.faithful() ==> reader.origin() == source.position()
                &&& source.faithful() ==> reader.spans() == lines_from(
                    source.content(),
                    separator,
                    source.position() as nat,
                )
            },
            r matches Err(e) ==> !(e is Index),
            source.faithful() && source.infallible() && source.content().len() <= usize::MAX && (
            cache ==> source.reads_fully()) ==> r is Ok,
    {
        let ghost content = source.content();
        let mut handle = source;
        let mut indexer = match LineIndexer::attach(&mut handle, separator, cache) {
            Ok(indexer) => indexer,
            Err(e) => {
                return Err(e);
            },
        };
        let origin: u64 = indexer.scanner.current_position();
        let mut references: Vec<FileRef> = Vec::new();
        loop
            invariant_except_break
                indexer.wf(),
                indexer.mirrors(&handle),
            invariant
                indexer.separator() == separator,
                indexer.caches() == cache,
                same_source(&source, &handle),
                content == source.content(),
                origin <= indexer.position(),
                source.faithful() ==> origin == source.position(),
                forall|i: int|
                    0 <= i < references.len() ==> {
                        &&& (#[trigger] references[i]).wf()
                        &&& references[i].is_cached() == cache
                        &&& references[i].span().offset < indexer.position()
                        &&& references[i].span().end() <= indexer.position()
                        &&& source.faithful() ==> references[i].lies_in(content)
                    },
                ordered(spans_of(references@)),
                source.faithful() ==> spans_of(references@)
                    + lines_from(content, separator, indexer.position() as nat) == lines_from(
                    content,
                    separator,
                    origin as nat,
                ),
            ensures
                source.faithful() ==> spans_of(references@)
                    == lines_from(content, separator, origin as nat),
            decreases u64::MAX - indexer.position(),
        {
            let ghost found = spans_of(references@);
            let ghost here = indexer.position() as nat;
            match indexer.read_next_line_internal(&mut handle) {
                ReadState::Successful(line) => {
                    references.push(line);
                    proof {
                        let grown = spans_of(references@);
                        assert(grown =~= found.push(line.span()));
                        assert(ordered(grown)) by {
                            assert forall|i: int, j: int| 0 <= i < j < grown.len() implies (
                            #[trigger] grown[i]).offset < (#[trigger] grown[j]).offset
                                && grown[i].end() <= grown[j].offset by {
                                if j < found.len() {
                                    assert(found[i].offset < found[j].offset);
                                } else {
                                    assert(references[i].wf());
                                }
                            }
                        }
                        if source.faithful() {
                            let rest = lines_from(content, separator, indexer.position() as nat);
                            assert(found.push(line.span()) + rest =~= found + (seq![line.span()]
                                + rest));
                        }
                    }
                },
                ReadState::EndOfData => {
                    proof {
                        if source.faithful() {
                            assert(found + Seq::<LineSpan>::empty() =~= found);
                        }
                    }
                    break ;
                },
                ReadState::Error(e) => {
                    return Err(e);
                },
            }
        }
        Ok(FileReader { source: handle, separator, cache, origin, references, ref_pos: 0 })
    }

    /// Number of lines.
    pub fn line_count(&self) -> (count: usize)
        ensures
            count == self.spans().len(),
    {
        self.references.len()
    }

    /// The code point that closes a line.
    pub fn separator_code_point(&self) -> (separator: u32)
        ensures
            separator == self.separator(),
    {
        self.separator
    }

    /// Index of the line that `next_line` hands out next.
    pub fn cursor(&self) -> (cursor: usize)
        ensures
            cursor == self.position(),
    {
        self.ref_pos
    }

    /// The reference to line `index`, if there is such a line.
    pub fn reference(&self, index: usize) -> (r: Option<&FileRef>)
        requires
            self.wf(),
        ensures
            r is Some <==> index < self.spans().len(),
            r matches Some(line) ==> {
                &&& line.wf()
                &&& line.span() == self.spans()[index as int]
                &&& line.cached() == self.copies()[index as int]
                &&& self.source().faithful() ==> line.lies_in(self.source().content())
            },
    {
        if index < self.references.len() {
            Some(&self.references[index])
        } else {
            None
        }
    }

    /// Gives the source back and the reader up.
    pub fn into_source(self) -> (source: S)
        ensures
            source == self.source(),
    {
        self.source
    }

    /// What a call for line `index` may do to a reader, but for the cursor: `result` is
    /// what it returns, `before` and `after` are the reader before and after it.
    ///
    /// The index stays as it is. An index that names no line gives `Index`, and no
    /// other index does. Bytes that are returned are as many as the line has; they are the
    /// copy if the reader caches, and the bytes of the line in the content if the
    /// source is faithful. The source is not touched if the reader caches; a faithful
    /// source stands where it stood unless the source itself failed. Success is owed
    /// for every line if the reader caches or the source is faithful, never fails and
    /// reads fully.
    pub open spec fn fetches(
        before: &Self,
        index: usize,
        result: Result<Vec<u8>, ReadError>,
        after: &Self,
    ) -> bool {
        let count = before.spans().len();
        &&& after.wf()
        &&& same_source(&before.source(), &after.source())
        &&& after.spans() == before.spans()
        &&& after.copies() == before.copies()
        &&& after.separator() == before.separator()
        &&& after.origin() == before.origin()
        &&& after.caches() == before.caches()
        &&& index >= count ==> (result matches Err(ReadError::Index { index: i, count: c }) && i
            == index && c == count)
        &&& index < count ==> !(result matches Err(ReadError::Index { .. }))
        &&& result matches Ok(bytes) ==> {
            &&& bytes.len() == before.spans()[index as int].length
            &&& before.copies()[index as int] matches Some(copy) ==> bytes@ == copy
            &&& before.source().faithful() ==> bytes@ == line_bytes(
                before.source().content(),
                before.spans()[index as int],
            )
        }
        &&& result matches Err(ReadError::Mismatch { expected, got }) ==> expected
            == before.spans()[index as int].length && got != expected
        &&& before.caches() ==> after.source() == before.source()
        &&& before.source().faithful() && !(result matches Err(ReadError::Io(_)))
            ==> after.source().position() == before.source().position()
        &&& index < count && (before.caches() || (before.source().faithful()
            && before.source().infallible() && before.source().reads_fully())) ==> result is Ok
    }

    /// The bytes of line `index`, wherever the cursor stands, which stays where it is.
    pub fn resolve(&mut self, index: usize) -> (r: Result<Vec<u8>, ReadError>)
        requires
            old(self).wf(),
        ensures
            Self::fetches(old(self), index, r, final(self)),
            final(self).position() == old(self).position(),
    {
        let count: usize = self.references.len();
        if index >= count {
            return Err(ReadError::Index { index, count });
        }
        let ghost before = *self;
        assert(self.references[index as int].wf());
        let r = self.references[index].read(&mut self.source);
        proof {
            assert(self.spans() =~= before.spans());
            assert(self.copies() =~= before.copies());
            assert(before.spans()[index as int] == self.references[index as int].span());
            assert(before.copies()[index as int] == self.references[index as int].cached());
        }
        r
    }

    /// Sets the cursor to line `index` and returns the bytes of that line, so that
    /// `next_line` hands out the same line next. If the line cannot be had, the cursor
    /// stays where it is.
    pub fn reposition(&mut self, index: usize) -> (r: Result<Vec<u8>, ReadError>)
        requires
            old(self).wf(),
        ensures
            Self::fetches(old(self), index, r, final(self)),
            r is Ok ==> final(self).position() == index,
            r is Err ==> final(self).position() == old(self).position(),
    {
        let r = self.resolve(index);
        if r.is_ok() {
            self.ref_pos = index;
        }
        r
    }

    /// Asking twice for the same line gives the same bytes twice, and leaves the
    /// source where it stood and the cursor where it stood, as long as the reader
    /// caches or the source is faithful.
    pub proof fn lemma_resolve_is_idempotent(
        before: &Self,
        index: usize,
        first: Result<Vec<u8>, ReadError>,
        between: &Self,
        second: Result<Vec<u8>, ReadError>,
        after: &Self,
    )
        requires
            before.wf(),
            before.caches() || before.source().faithful(),
            Self::fetches(before, index, first, between),
            between.position() == before.position(),
            Self::fetches(between, index, second, after),
            after.position() == between.position(),
            first is Ok,
            second is Ok,
        ensures
            first->Ok_0@ == second->Ok_0@,
            after.position() == before.position(),
            after.spans() == before.spans(),
            before.caches() ==> after.source() == before.source(),
            before.source().faithful() ==> after.source().position()
                == before.source().position(),
    {
        before.lemma_index();
    }

    /// The reader of a faithful source has one line for each separator in the content,
    /// and one more if the content does not end with a separator and is not empty.
    pub proof fn lemma_counts_separators(&self)
        requires
            self.wf(),
            self.source().faithful(),
            self.origin() <= self.source().content().len(),
        ensures
            ends_with_separator(self.source().content(), self.separator(), self.origin() as nat)
                ==> self.spans().len() == separator_count(
                self.source().content(),
                self.separator(),
                self.origin() as nat,
            ),
            !ends_with_separator(self.source().content(), self.separator(), self.origin() as nat)
                && self.origin() < self.source().content().len() ==> self.spans().len()
                == separator_count(
                self.source().content(),
                self.separator(),
                self.origin() as nat,
            ) + 1,
    {
        self.lemma_index();
        lemma_line_count(self.source().content(), self.separator(), self.origin() as nat);
    }

    /// The lines of a faithful source, joined by the separator, are its content from
    /// where the reader began: this holds if the content does not end with a separator
    /// and every separator in it is written as `between`.
    pub proof fn lemma_lines_rebuild_content(&self, between: Seq<u8>)
        requires
            self.wf(),
            self.source().faithful(),
            self.origin() <= self.source().content().len(),
            !ends_with_separator(self.source().content(), self.separator(), self.origin() as nat),
            forall|i: int|
                0 <= i < self.spans().len() - 1 ==> #[trigger] gap(
                    self.source().content(),
                    self.spans(),
                    i,
                ) == between,
        ensures
            joined(self.lines(), between) == self.source().content().subrange(
                self.origin() as int,
                self.source().content().len() as int,
            ),
    {
        self.lemma_index();
        lemma_round_trip(
            self.source().content(),
            self.separator(),
            self.origin() as nat,
            between,
        );
    }

    /// Whether a reader holds copies of its lines makes no difference to the bytes
    /// that it returns: two readers of faithful sources with the same content, made
    /// with the same separator from the same offset, have the same lines, and return
    /// the same bytes for each.
    pub proof fn lemma_cache_is_transparent<T: ByteSource>(
        plain: &Self,
        caching: &FileReader<T>,
        index: usize,
        plain_result: Result<Vec<u8>, ReadError>,
        plain_after: &Self,
        caching_result: Result<Vec<u8>, ReadError>,
        caching_after: &FileReader<T>,
    )
        requires
            plain.wf(),
            caching.wf(),
            plain.source().faithful(),
            caching.source().faithful(),
            plain.source().content() == caching.source().content(),
            plain.separator() == caching.separator(),
            plain.origin() == caching.origin(),
            Self::fetches(plain, index, plain_result, plain_after),
            FileReader::<T>::fetches(caching, index, caching_result, caching_after),
            plain_result is Ok,
            caching_result is Ok,
        ensures
            plain.spans() == caching.spans(),
            plain_result->Ok_0@ == caching_result->Ok_0@,
    {
        plain.lemma_index();
        caching.lemma_index();
    }
}

impl<S: ByteSource> DataSource for FileReader<S> {
    open spec fn lines(&self) -> Seq<Seq<u8>> {
        line_contents(self.source().content(), self.spans())
    }

    open spec fn count(&self) -> nat {
        self.spans().len()
    }

    open spec fn cursor(&self) -> nat {
        self.position()
    }

    open spec fn usable(&self) -> bool {
        self.wf()
    }

    open spec fn exact(&self) -> bool {
        self.source().faithful()
    }

    open spec fn dependable(&self) -> bool {
        self.caches() || (self.source().faithful() && self.source().infallible()
            && self.source().reads_fully())
    }

    fn next_line(&mut self) -> (r: ReadState<Vec<u8>>)
        ensures
            r matches ReadState::Successful(bytes) ==> Self::fetches(
                old(self),
                old(self).position() as usize,
                Ok(bytes),
                final(self),
            ),
            r matches ReadState::Error(e) ==> Self::fetches(
                old(self),
                old(self).position() as usize,
                Err(e),
                final(self),
            ),
            r is EndOfData ==> *final(self) == *old(self),
    {
        if self.ref_pos >= self.references.len() {
            return ReadState::EndOfData;
        }
        let index: usize = self.ref_pos;
        self.ref_pos = self.ref_pos + 1;
        match self.resolve(index) {
            Ok(bytes) => ReadState::Successful(bytes),
            Err(e) => ReadState::Error(e),
        }
    }
}

} // verus!
