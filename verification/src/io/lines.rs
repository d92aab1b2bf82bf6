use crate::io::utf8::{decode_at, lemma_decode_consumes, Decoded};
use vstd::prelude::*;

verus! {

/// Where one line lies in a byte string: `length` bytes from offset `offset` on.
pub struct LineSpan {
    pub offset: nat,
    pub length: nat,
}

impl LineSpan {
    /// Offset of the first byte after the line.
    pub open spec fn end(self) -> nat {
        self.offset + self.length
    }
}

/// The lines of `s` that a scan finds which stands at `pos` inside a line that began at
/// `start`.
///
/// A separator closes the line in front of it and opens the next one behind it. The end
/// of `s` closes the line that is open if that line holds at least one byte.
pub open spec fn line_spans(s: Seq<u8>, separator: u32, start: nat, pos: nat) -> Seq<LineSpan>
    decreases s.len() - pos,
{
    match decode_at(s, pos as int) {
        Decoded::EndOfStream => if start < s.len() {
            seq![LineSpan { offset: start, length: (s.len() - start) as nat }]
        } else {
            Seq::empty()
        },
        Decoded::CodePoint { value, consumed } => if value == separator {
            seq![LineSpan { offset: start, length: (pos - start) as nat }] + line_spans(
                s,
                separator,
                pos + consumed,
                pos + consumed,
            )
        } else {
            line_spans(s, separator, start, pos + consumed)
        },
    }
}

/// The lines of `s` from offset `origin` on.
pub open spec fn lines_from(s: Seq<u8>, separator: u32, origin: nat) -> Seq<LineSpan> {
    line_spans(s, separator, origin, origin)
}

/// Number of separators that a scan of `s` from `pos` on meets.
pub open spec fn separator_count(s: Seq<u8>, separator: u32, pos: nat) -> nat
    decreases s.len() - pos,
{
    match decode_at(s, pos as int) {
        Decoded::EndOfStream => 0,
        Decoded::CodePoint { value, consumed } => if value == separator {
            1 + separator_count(s, separator, pos + consumed)
        } else {
            separator_count(s, separator, pos + consumed)
        },
    }
}

/// Offset behind the last separator that a scan of `s` from `pos` on meets, and `start`
/// if it meets none.
pub open spec fn last_line_start(s: Seq<u8>, separator: u32, start: nat, pos: nat) -> nat
    decreases s.len() - pos,
{
    match decode_at(s, pos as int) {
        Decoded::EndOfStream => start,
        Decoded::CodePoint { value, consumed } => if value == separator {
            last_line_start(s, separator, pos + consumed, pos + consumed)
        } else {
            last_line_start(s, separator, start, pos + consumed)
        },
    }
}

/// `s`, read from `origin` on, holds a separator and ends with one.
pub open spec fn ends_with_separator(s: Seq<u8>, separator: u32, origin: nat) -> bool {
    separator_count(s, separator, origin) > 0 && last_line_start(s, separator, origin, origin)
        == s.len()
}

/// The bytes of the line `span` of `s`.
pub open spec fn line_bytes(s: Seq<u8>, span: LineSpan) -> Seq<u8> {
    s.subrange(span.offset as int, span.end() as int)
}

/// The contents of the lines `spans` of `s`, in order.
pub open spec fn line_contents(s: Seq<u8>, spans: Seq<LineSpan>) -> Seq<Seq<u8>> {
    Seq::new(spans.len(), |i: int| line_bytes(s, spans[i]))
}

/// The lines one after another, with `between` after each but the last.
pub open spec fn joined(lines: Seq<Seq<u8>>, between: Seq<u8>) -> Seq<u8>
    decreases lines.len(),
{
    if lines.len() == 0 {
        Seq::empty()
    } else if lines.len() == 1 {
        lines[0]
    } else {
        lines[0] + between + joined(lines.drop_first(), between)
    }
}

/// A separator stands behind line `i`, and line `i + 1` begins behind that separator.
pub open spec fn separator_follows(
    s: Seq<u8>,
    separator: u32,
    spans: Seq<LineSpan>,
    i: int,
) -> bool {
    decode_at(s, spans[i].end() as int) matches Decoded::CodePoint { value, consumed }
        && value == separator && spans[i + 1].offset == spans[i].end() + consumed
}

/// A separator stands behind the line `last`, and `s` ends behind that separator.
pub open spec fn separator_closes(s: Seq<u8>, separator: u32, last: LineSpan) -> bool {
    decode_at(s, last.end() as int) matches Decoded::CodePoint { value, consumed }
        && value == separator && last.end() + consumed == s.len()
}

/// Offsets rise strictly from line to line, and no two lines overlap.
pub open spec fn ordered(spans: Seq<LineSpan>) -> bool {
    forall|i: int, j: int|
        0 <= i < j < spans.len() ==> (#[trigger] spans[i]).offset < (#[trigger] spans[j]).offset
            && spans[i].end() <= spans[j].offset
}

/// The bytes between line `i` and line `i + 1`.
pub open spec fn gap(s: Seq<u8>, spans: Seq<LineSpan>, i: int) -> Seq<u8> {
    s.subrange(spans[i].end() as int, spans[i + 1].offset as int)
}

/// The shape of the lines that a scan finds: the first begins where the scan's line
/// began, each lies inside `s`, a separator stands between each two neighbours and
/// nothing else, and the last line ends with `s` or with a separator that ends `s`.
pub proof fn lemma_spans_structure(s: Seq<u8>, separator: u32, start: nat, pos: nat)
    requires
        start <= pos <= s.len(),
    ensures
        ({
            let spans = line_spans(s, separator, start, pos);
            &&& spans.len() == 0 <==> start == s.len()
            &&& spans.len() > 0 ==> spans[0].offset == start && spans[0].end() >= pos
            &&& forall|i: int|
                0 <= i < spans.len() ==> start <= (#[trigger] spans[i]).offset && spans[i].end()
                    <= s.len()
            &&& forall|i: int|
                0 <= i < spans.len() - 1 ==> #[trigger] separator_follows(s, separator, spans, i)
            &&& spans.len() > 0 ==> spans.last().end() == s.len() || separator_closes(
                s,
                separator,
                spans.last(),
            )
            &&& ordered(spans)
        }),
    decreases s.len() - pos,
{
    lemma_decode_consumes(s, pos as int);
    match decode_at(s, pos as int) {
        Decoded::EndOfStream => {},
        Decoded::CodePoint { value, consumed } => {
            if value == separator {
                let next = pos + consumed;
                lemma_spans_structure(s, separator, next, next);
                let first = LineSpan { offset: start, length: (pos - start) as nat };
                let rest = line_spans(s, separator, next, next);
                let spans = line_spans(s, separator, start, pos);
                assert(spans =~= seq![first] + rest);
                assert forall|i: int| 0 <= i < spans.len() - 1 implies #[trigger] separator_follows(
                    s,
                    separator,
                    spans,
                    i,
                ) by {
                    if i > 0 {
                        assert(separator_follows(s, separator, rest, i - 1));
                    }
                }
                assert(ordered(spans)) by {
                    assert forall|i: int, j: int| 0 <= i < j < spans.len() implies (
                    #[trigger] spans[i]).offset < (#[trigger] spans[j]).offset && spans[i].end()
                        <= spans[j].offset by {
                        assert(spans[j] == rest[j - 1]);
                        if i > 0 {
                            assert(spans[i] == rest[i - 1]);
                        }
                    }
                }
                if rest.len() > 0 {
                    assert(spans.last() == rest.last());
                }
            } else {
                lemma_spans_structure(s, separator, start, pos + consumed);
            }
        },
    }
}

/// From each line on, the lines are those that a scan from that line's first byte finds.
pub proof fn lemma_spans_resume(s: Seq<u8>, separator: u32, start: nat, pos: nat, i: int)
    requires
        start <= pos <= s.len(),
        1 <= i < line_spans(s, separator, start, pos).len(),
    ensures
        line_spans(s, separator, start, pos).skip(i) == lines_from(
            s,
            separator,
            line_spans(s, separator, start, pos)[i].offset,
        ),
    decreases s.len() - pos,
{
    lemma_decode_consumes(s, pos as int);
    match decode_at(s, pos as int) {
        Decoded::EndOfStream => {},
        Decoded::CodePoint { value, consumed } => {
            if value == separator {
                let next = pos + consumed;
                let rest = line_spans(s, separator, next, next);
                let spans = line_spans(s, separator, start, pos);
                lemma_spans_structure(s, separator, next, next);
                if i == 1 {
                    assert(spans.skip(1) =~= rest);
                } else {
                    lemma_spans_resume(s, separator, next, next, i - 1);
                    assert(spans.skip(i) =~= rest.skip(i - 1));
                }
            } else {
                lemma_spans_resume(s, separator, start, pos + consumed, i);
            }
        },
    }
}

/// A line that begins with a separator is empty: where two separators stand side by
/// side, the line between them is there and has no bytes.
pub proof fn lemma_separator_at_start_closes_empty_line(
    s: Seq<u8>,
    separator: u32,
    origin: nat,
    i: int,
)
    requires
        origin <= s.len(),
        0 <= i < lines_from(s, separator, origin).len(),
        decode_at(s, lines_from(s, separator, origin)[i].offset as int) matches Decoded::CodePoint {
            value,
            ..
        } && value == separator,
    ensures
        lines_from(s, separator, origin)[i].length == 0,
{
    let spans = lines_from(s, separator, origin);
    lemma_spans_structure(s, separator, origin, origin);
    if i > 0 {
        lemma_spans_resume(s, separator, origin, origin, i);
        assert(spans.skip(i)[0] == spans[i]);
    }
}

/// Where the scan's line has begun and where the last line begins.
pub proof fn lemma_last_line_start(s: Seq<u8>, separator: u32, start: nat, pos: nat)
    requires
        start <= pos <= s.len(),
    ensures
        start <= last_line_start(s, separator, start, pos) <= s.len(),
        separator_count(s, separator, pos) == 0 ==> last_line_start(s, separator, start, pos)
            == start,
    decreases s.len() - pos,
{
    lemma_decode_consumes(s, pos as int);
    match decode_at(s, pos as int) {
        Decoded::EndOfStream => {},
        Decoded::CodePoint { value, consumed } => {
            if value == separator {
                lemma_last_line_start(s, separator, pos + consumed, pos + consumed);
            } else {
                lemma_last_line_start(s, separator, start, pos + consumed);
            }
        },
    }
}

/// A scan finds one line for each separator, and one more if bytes are left behind the
/// last separator.
pub proof fn lemma_count_from(s: Seq<u8>, separator: u32, start: nat, pos: nat)
    requires
        start <= pos <= s.len(),
    ensures
        line_spans(s, separator, start, pos).len() == separator_count(s, separator, pos) + (
        if last_line_start(s, separator, start, pos) < s.len() {
            1nat
        } else {
            0nat
        }),
    decreases s.len() - pos,
{
    lemma_decode_consumes(s, pos as int);
    match decode_at(s, pos as int) {
        Decoded::EndOfStream => {},
        Decoded::CodePoint { value, consumed } => {
            if value == separator {
                lemma_count_from(s, separator, pos + consumed, pos + consumed);
            } else {
                lemma_count_from(s, separator, start, pos + consumed);
            }
        },
    }
}

/// A string with `n` separators has `n` lines if it ends with a separator, and `n + 1`
/// lines if it does not and holds at least one byte.
pub proof fn lemma_line_count(s: Seq<u8>, separator: u32, origin: nat)
    requires
        origin <= s.len(),
    ensures
        ends_with_separator(s, separator, origin) ==> lines_from(s, separator, origin).len()
            == separator_count(s, separator, origin),
        !ends_with_separator(s, separator, origin) && origin < s.len() ==> lines_from(
            s,
            separator,
            origin,
        ).len() == separator_count(s, separator, origin) + 1,
{
    lemma_count_from(s, separator, origin, origin);
    lemma_last_line_start(s, separator, origin, origin);
}

/// Nothing to read, no lines: an empty string has none, and neither has a scan that
/// begins at or behind the end.
pub proof fn lemma_nothing_to_read(s: Seq<u8>, separator: u32, origin: nat)
    requires
        origin >= s.len(),
    ensures
        lines_from(s, separator, origin) == Seq::<LineSpan>::empty(),
{
}

/// A string of nothing but one-byte separators has one line for each of them, and
/// each of these lines is empty.
pub proof fn lemma_only_separators(s: Seq<u8>, separator: u32, origin: nat)
    requires
        origin <= s.len(),
        separator < 0x80,
        forall|p: int| origin <= p < s.len() ==> s[p] == separator,
    ensures
        lines_from(s, separator, origin) == Seq::new(
            (s.len() - origin) as nat,
            |i: int| LineSpan { offset: (origin + i) as nat, length: 0 },
        ),
    decreases s.len() - origin,
{
    let expected = Seq::new(
        (s.len() - origin) as nat,
        |i: int| LineSpan { offset: (origin + i) as nat, length: 0 },
    );
    if origin < s.len() {
        assert(s[origin as int] == separator);
        assert(decode_at(s, origin as int) == (Decoded::CodePoint {
            value: separator,
            consumed: 1,
        }));
        lemma_only_separators(s, separator, origin + 1);
        assert(lines_from(s, separator, origin) =~= expected);
    } else {
        assert(lines_from(s, separator, origin) =~= expected);
    }
}

/// Round trip for a scan that stands inside a line: if bytes are left behind the last
/// separator and every separator is written as `between`, the lines joined by
/// `between` are the string from the line's first byte on.
pub proof fn lemma_joined_from(
    s: Seq<u8>,
    separator: u32,
    start: nat,
    pos: nat,
    between: Seq<u8>,
)
    requires
        start <= pos <= s.len(),
        last_line_start(s, separator, start, pos) < s.len(),
        forall|i: int|
            0 <= i < line_spans(s, separator, start, pos).len() - 1 ==> #[trigger] gap(
                s,
                line_spans(s, separator, start, pos),
                i,
            ) == between,
    ensures
        joined(line_contents(s, line_spans(s, separator, start, pos)), between) == s.subrange(
            start as int,
            s.len() as int,
        ),
    decreases s.len() - pos,
{
    lemma_decode_consumes(s, pos as int);
    let spans = line_spans(s, separator, start, pos);
    match decode_at(s, pos as int) {
        Decoded::EndOfStream => {
            assert(line_contents(s, spans)[0] == s.subrange(start as int, s.len() as int));
        },
        Decoded::CodePoint { value, consumed } => {
            if value == separator {
                let next = pos + consumed;
                let rest = line_spans(s, separator, next, next);
                lemma_last_line_start(s, separator, next, next);
                lemma_spans_structure(s, separator, next, next);
                assert(spans =~= seq![LineSpan { offset: start, length: (pos - start) as nat }]
                    + rest);
                assert forall|i: int| 0 <= i < rest.len() - 1 implies #[trigger] gap(s, rest, i)
                    == between by {
                    assert(gap(s, spans, i + 1) == between);
                }
                lemma_joined_from(s, separator, next, next, between);
                assert(gap(s, spans, 0) == between);
                assert(line_contents(s, spans).drop_first() =~= line_contents(s, rest));
                assert(line_contents(s, spans)[0] == s.subrange(start as int, pos as int));
                assert(s.subrange(start as int, pos as int) + s.subrange(pos as int, next as int)
                    + s.subrange(next as int, s.len() as int) =~= s.subrange(
                    start as int,
                    s.len() as int,
                ));
            } else {
                lemma_joined_from(s, separator, start, pos + consumed, between);
            }
        },
    }
}

/// Round trip: if the string does not end with a separator and every separator in it
/// is written as `between`, then the contents of its lines, with `between` put back
/// between them, are the string itself.
pub proof fn lemma_round_trip(s: Seq<u8>, separator: u32, origin: nat, between: Seq<u8>)
    requires
        origin <= s.len(),
        !ends_with_separator(s, separator, origin),
        forall|i: int|
            0 <= i < lines_from(s, separator, origin).len() - 1 ==> #[trigger] gap(
                s,
                lines_from(s, separator, origin),
                i,
            ) == between,
    ensures
        joined(line_contents(s, lines_from(s, separator, origin)), between) == s.subrange(
            origin as int,
            s.len() as int,
        ),
{
    lemma_last_line_start(s, separator, origin, origin);
    if origin < s.len() {
        let spans = line_spans(s, separator, origin, origin);
        assert forall|i: int| 0 <= i < spans.len() - 1 implies #[trigger] gap(s, spans, i)
            == between by {
            assert(gap(s, lines_from(s, separator, origin), i) == between);
        }
        lemma_joined_from(s, separator, origin, origin, between);
    } else {
        assert(joined(line_contents(s, lines_from(s, separator, origin)), between)
            =~= s.subrange(origin as int, s.len() as int));
    }
}

} // verus!
