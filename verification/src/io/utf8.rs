use crate::io::buffer::ByteBuffer;
use crate::io::source::{same_source, ByteSource};
use crate::io::{ReadError, ReadState};
use vstd::prelude::*;

verus! {

/// The code point that stands for a byte sequence that is not well-formed.
pub const REPLACEMENT: u32 = 0xFFFD;

/// What stands at one position of a byte string.
pub enum Decoded {
    /// A code point, and the number of bytes after which the next one starts.
    CodePoint { value: u32, consumed: nat },
    /// Nothing more: the string has ended, possibly in the middle of a sequence.
    EndOfStream,
}

/// Number of bytes of the sequence that `lead` opens, by its high bits:
/// `0xxxxxxx` one, `110xxxxx` two, `1110xxxx` three, `11110xxx` four.
/// Zero for a byte that cannot open a sequence.
pub open spec fn sequence_length(lead: u8) -> nat {
    if lead < 0x80 {
        1
    } else if 0xC0 <= lead < 0xE0 {
        2
    } else if 0xE0 <= lead < 0xF0 {
        3
    } else if 0xF0 <= lead < 0xF8 {
        4
    } else {
        0
    }
}

/// `b` has the shape `10xxxxxx` of a continuation byte.
pub open spec fn is_continuation(b: u8) -> bool {
    0x80 <= b < 0xC0
}

/// The payload of a lead byte: its low bits below the length marker. A lead of an
/// `n`-byte sequence, `n > 1`, carries `7 - n` of them.
pub open spec fn lead_payload(lead: u8) -> nat {
    if lead < 0x80 {
        lead as nat
    } else if 0xC0 <= lead < 0xE0 {
        (lead % 32) as nat
    } else if 0xE0 <= lead < 0xF0 {
        (lead % 16) as nat
    } else if 0xF0 <= lead < 0xF8 {
        (lead % 8) as nat
    } else {
        0
    }
}

/// The payload of a continuation byte: its low six bits.
pub open spec fn continuation_payload(b: u8) -> nat {
    (b % 64) as nat
}

/// The value of the first `count` bytes of the sequence that starts at `pos`, most
/// significant byte first: each continuation byte shifts what came before by six bits.
pub open spec fn payload(s: Seq<u8>, pos: int, count: nat) -> nat
    decreases count,
{
    if count == 0 {
        0
    } else if count == 1 {
        lead_payload(s[pos])
    } else {
        payload(s, pos, (count - 1) as nat) * 64 + continuation_payload(s[pos + count - 1])
    }
}

/// The byte `k` places after `pos` exists and is no continuation byte.
pub open spec fn breaks_at(s: Seq<u8>, pos: int, k: int) -> bool {
    pos + k < s.len() && !is_continuation(s[pos + k])
}

/// The sequence that starts at `pos` is not well-formed: its lead cannot open a
/// sequence, or a byte that is present where a continuation byte is due is none.
pub open spec fn malformed_at(s: Seq<u8>, pos: int) -> bool {
    let n = sequence_length(s[pos]);
    0 <= pos < s.len() && (n == 0 || (n >= 2 && breaks_at(s, pos, 1)) || (n >= 3 && breaks_at(
        s,
        pos,
        2,
    )) || (n >= 4 && breaks_at(s, pos, 3)))
}

/// The code point at `pos` of `s`.
///
/// A sequence that is not well-formed yields the replacement code point and gives up
/// its lead byte only. A well-formed beginning that the end of `s` cuts short yields
/// `EndOfStream`, as does a position at or past the end.
pub open spec fn decode_at(s: Seq<u8>, pos: int) -> Decoded {
    if pos < 0 || pos >= s.len() {
        Decoded::EndOfStream
    } else if malformed_at(s, pos) {
        Decoded::CodePoint { value: REPLACEMENT, consumed: 1 }
    } else if pos + sequence_length(s[pos]) > s.len() {
        Decoded::EndOfStream
    } else {
        Decoded::CodePoint {
            value: payload(s, pos, sequence_length(s[pos])) as u32,
            consumed: sequence_length(s[pos]),
        }
    }
}

/// A code point takes at least one byte and at most four, all of them inside `s`.
pub proof fn lemma_decode_consumes(s: Seq<u8>, pos: int)
    ensures
        decode_at(s, pos) matches Decoded::CodePoint { value, consumed } ==> {
            &&& 0 <= pos
            &&& 1 <= consumed <= 4
            &&& pos + consumed <= s.len()
        },
{
}

/// Every byte sequence that is not well-formed decodes to the replacement code point,
/// and the next code point starts at the byte after its lead: an impossible lead, or a
/// lead followed, before the string ends, by a byte that is no continuation byte where
/// one is due.
pub proof fn lemma_malformed_is_replaced(s: Seq<u8>, pos: int)
    requires
        0 <= pos < s.len(),
        sequence_length(s[pos]) == 0 || exists|k: int|
            1 <= k < sequence_length(s[pos]) && #[trigger] breaks_at(s, pos, k),
    ensures
        decode_at(s, pos) == (Decoded::CodePoint { value: REPLACEMENT, consumed: 1 }),
{
}

/// Upper limit of the value of the first `count` bytes of a sequence of `length` bytes.
pub open spec fn payload_limit(length: nat, count: nat) -> nat {
    if length == 1 {
        0x80
    } else if length == 2 {
        if count == 1 {
            0x20
        } else {
            0x800
        }
    } else if length == 3 {
        if count == 1 {
            0x10
        } else if count == 2 {
            0x400
        } else {
            0x1_0000
        }
    } else {
        if count == 1 {
            0x08
        } else if count == 2 {
            0x200
        } else if count == 3 {
            0x8000
        } else {
            0x20_0000
        }
    }
}

/// The bytes of a sequence never hold more than 21 bits of payload, and every
/// beginning of a sequence holds six bits less for each byte that is still due.
pub proof fn lemma_payload_bound(s: Seq<u8>, pos: int, count: nat)
    requires
        0 <= pos < s.len(),
        1 <= count <= sequence_length(s[pos]),
    ensures
        payload(s, pos, count) < payload_limit(sequence_length(s[pos]), count),
        payload(s, pos, count) < 0x20_0000,
    decreases count,
{
    if count > 1 {
        lemma_payload_bound(s, pos, (count - 1) as nat);
    }
}

/// Length of the sequence that `lead` opens, zero if it opens none.
pub fn sequence_len(lead: u8) -> (n: u8)
    ensures
        n == sequence_length(lead),
{
    assert(lead >> 7 != 1 <==> lead < 0x80) by (bit_vector);
    assert(lead >> 5 == 6 <==> 0xC0 <= lead < 0xE0) by (bit_vector);
    assert(lead >> 4 == 14 <==> 0xE0 <= lead < 0xF0) by (bit_vector);
    assert(lead >> 3 == 30 <==> 0xF0 <= lead < 0xF8) by (bit_vector);
    if lead >> 7 != 1 {
        1
    } else if lead >> 5 == 6 {
        2
    } else if lead >> 4 == 14 {
        3
    } else if lead >> 3 == 30 {
        4
    } else {
        0
    }
}

/// Whether `b` is a continuation byte.
pub fn continuation_byte(b: u8) -> (r: bool)
    ensures
        r == is_continuation(b),
{
    assert(b >> 6 == 2 <==> 0x80 <= b < 0xC0) by (bit_vector);
    b >> 6 == 2
}

/// The payload bits of a lead byte.
pub fn lead_bits(lead: u8) -> (bits: u32)
    ensures
        bits == lead_payload(lead),
{
    let n: u8 = sequence_len(lead);
    let wide: u32 = lead as u32;
    assert(wide & 0x1F == wide % 32) by (bit_vector);
    assert(wide & 0x0F == wide % 16) by (bit_vector);
    assert(wide & 0x07 == wide % 8) by (bit_vector);
    if n == 1 {
        wide
    } else if n == 2 {
        wide & 0x1F
    } else if n == 3 {
        wide & 0x0F
    } else if n == 4 {
        wide & 0x07
    } else {
        0
    }
}

/// Appends the six payload bits of the continuation byte `b` to `acc`.
pub fn push_continuation(acc: u32, b: u8) -> (r: u32)
    requires
        acc < 0x8000,
    ensures
        r == acc * 64 + continuation_payload(b),
        r < 0x20_0000,
{
    let wide: u32 = b as u32;
    assert((acc << 6) | (wide & 0x3F) == acc * 64 + wide % 64) by (bit_vector)
        requires
            acc < 0x8000,
    ;
    (acc << 6) | (wide & 0x3F)
}

/// Reads a source one code point at a time, through a read-ahead buffer.
///
/// Continuation bytes that turn out to belong to a sequence that is not well-formed
/// have left the buffer by then. The scanner remembers how many there are and reports
/// them one by one, as the replacement code point each, as if it read them again.
pub struct Utf8Scanner {
    buffer: ByteBuffer,
    pending: usize,
}

impl Utf8Scanner {
    /// The buffer is well-formed, and the bytes still to be reported lie behind its
    /// position.
    pub closed spec fn wf(&self) -> bool {
        &&& self.buffer.wf()
        &&& self.pending <= 2
        &&& self.pending <= self.buffer.position()
    }

    /// Absolute offset of the byte at which the next code point starts.
    pub closed spec fn position(&self) -> u64 {
        (self.buffer.position() - self.pending) as u64
    }

    /// The scanner is in step with `source`: its buffer is, and if the source is
    /// faithful, the bytes still to be reported are continuation bytes of its content.
    pub closed spec fn mirrors<S: ByteSource>(&self, source: &S) -> bool {
        &&& self.buffer.mirrors(source)
        &&& source.faithful() && self.pending > 0 ==> {
            &&& self.buffer.position() <= source.content().len()
            &&& forall|k: int|
                1 <= k <= self.pending ==> is_continuation(
                    #[trigger] source.content()[self.buffer.position() - k],
                )
        }
    }

    /// Being in step depends on the source's position and content alone.
    pub proof fn lemma_mirrors_same<S: ByteSource>(&self, before: &S, after: &S)
        requires
            self.mirrors(before),
            same_source(before, after),
            before.faithful() ==> after.position() == before.position(),
        ensures
            self.mirrors(after),
    {
        self.buffer.lemma_mirrors_same(before, after);
    }

    /// A scanner in front of `source`, at the position where the source stands.
    pub fn attach<S: ByteSource>(source: &mut S) -> (r: Result<Self, ReadError>)
        ensures
            same_source(old(source), final(source)),
            r matches Ok(scanner) ==> {
                &&& scanner.wf()
                &&& scanner.mirrors(final(source))
                &&& old(source).faithful() ==> scanner.position() == old(source).position()
            },
            r matches Err(e) ==> e is Io,
            old(source).faithful() && old(source).infallible() ==> r is Ok,
    {
        match ByteBuffer::attach(source) {
            Ok(buffer) => Ok(Utf8Scanner { buffer, pending: 0 }),
            Err(e) => Err(e),
        }
    }

    /// Absolute offset of the byte at which the next code point starts.
    pub fn current_position(&self) -> (p: u64)
        requires
            self.wf(),
        ensures
            p == self.position(),
    {
        self.buffer.current_position() - self.pending as u64
    }

    /// The next code point of the source.
    ///
    /// A sequence that is not well-formed is no failure: it yields the replacement code
    /// point, and the next call starts at the byte behind its lead. A source that ends
    /// inside a sequence has ended: the answer is `EndOfData`, and the position then is
    /// the end of the source.
    #[verifier::loop_isolation(false)]
    pub fn next_utf8_char<S: ByteSource>(&mut self, source: &mut S) -> (r: ReadState<u32>)
        requires
            old(self).wf(),
            old(self).mirrors(old(source)),
        ensures
            final(self).wf(),
            same_source(old(source), final(source)),
            !(r is Error) ==> final(self).mirrors(final(source)),
            r is Successful ==> {
                old(self).position() < final(self).position() <= old(self).position() + 4
            },
            r is EndOfData ==> old(self).position() <= final(self).position(),
            r matches ReadState::Error(e) ==> !(e is Index),
            old(source).faithful() ==> (r matches ReadState::Successful(value) ==> decode_at(
                old(source).content(),
                old(self).position() as int,
            ) == (Decoded::CodePoint {
                value,
                consumed: (final(self).position() - old(self).position()) as nat,
            })),
            old(source).faithful() && r is EndOfData ==> {
                &&& decode_at(old(source).content(), old(self).position() as int) is EndOfStream
                &&& final(self).position() >= old(source).content().len()
                &&& final(self).position() == old(self).position() || final(self).position()
                    == old(source).content().len()
            },
            old(source).faithful() && old(source).infallible() ==> !(r is Error),
    {
        let ghost content = source.content();
        let ghost start = self.position() as int;
        if self.pending > 0 {
            proof {
                if source.faithful() {
                    assert(is_continuation(content[self.buffer.position() - self.pending]));
                }
            }
            self.pending = self.pending - 1;
            return ReadState::Successful(REPLACEMENT);
        }
        let lead: u8 = match self.buffer.next_byte(source) {
            ReadState::Successful(b) => b,
            ReadState::EndOfData => {
                return ReadState::EndOfData;
            },
            ReadState::Error(e) => {
                return ReadState::Error(e);
            },
        };
        let n: u8 = sequence_len(lead);
        if n == 0 {
            return ReadState::Successful(REPLACEMENT);
        }
        let mut out: u32 = lead_bits(lead);
        let mut read: u8 = 1;
        while read < n
            invariant
                1 <= read <= n <= 4,
                n == sequence_length(lead),
                self.buffer.wf(),
                self.pending == 0,
                self.buffer.mirrors(source),
                same_source(old(source), source),
                self.buffer.position() == start + read,
                out < payload_limit(n as nat, read as nat),
                source.faithful() ==> {
                    &&& start + read <= content.len()
                    &&& content[start] == lead
                    &&& out == payload(content, start, read as nat)
                    &&& forall|k: int|
                        1 <= k < read ==> is_continuation(#[trigger] content[start + k])
                },
            decreases n - read,
        {
            match self.buffer.peek_byte(source) {
                ReadState::Successful(b) => {
                    if !continuation_byte(b) {
                        proof {
                            if source.faithful() {
                                assert(breaks_at(content, start, read as int));
                                assert forall|k: int| 1 <= k <= read - 1 implies is_continuation(
                                    #[trigger] content[self.buffer.position() - k],
                                ) by {
                                    assert(is_continuation(content[start + (read - k)]));
                                }
                            }
                        }
                        self.pending = (read - 1) as usize;
                        return ReadState::Successful(REPLACEMENT);
                    }
                    self.buffer.advance::<S>();
                    out = push_continuation(out, b);
                    read = read + 1;
                },
                ReadState::EndOfData => {
                    return ReadState::EndOfData;
                },
                ReadState::Error(e) => {
                    return ReadState::Error(e);
                },
            }
        }
        proof {
            if source.faithful() {
                lemma_payload_bound(content, start, n as nat);
            }
        }
        ReadState::Successful(out)
    }
}

} // verus!
