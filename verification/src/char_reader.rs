//! Byte-stream decoding into Unicode scalar values with source positions,
//! plus a rewindable lookahead buffer (peek / peek-back / consume).

use crate::text::dec_rep;
use crate::text::push_char;
use crate::text::usize_to_string;
use std::collections::VecDeque;
use vstd::prelude::*;
use vstd::utf8;

verus! {

/// One decoded character together with its 1-based line and column.
pub type Codepoint = (char, usize, usize);

/// Failures of the decoder and of the lookahead protocol.
#[derive(Debug, PartialEq)]
pub enum Error {
    /// More peeked items were rewound than the buffer holds.
    PeekBackError,
    /// More buffered items were consumed than the buffer holds.
    ConsumeError,
    /// End of input, with the line and column reached.
    EOF(usize, usize),
    /// A byte that fits no UTF-8 pattern, with the line and column reached.
    InvalidUTF8(u8, usize, usize),
    /// An assembled value that is no Unicode scalar, with line and column.
    InvalidCodepoint(u32, usize, usize),
    /// A failure of the underlying byte source.
    ReadError(String),
}

impl Error {
    /// The human-readable rendering of the failure.
    pub open spec fn message_spec(&self) -> Seq<char> {
        match self {
            Error::PeekBackError => "peek-back was requested past the peek buffer"@,
            Error::ConsumeError => "consume was requested without a buffered peek"@,
            Error::EOF(_, _) => ""@,
            Error::InvalidUTF8(b, l, p) => "invalid byte ("@ + dec_rep(*b as nat) + ") at line "@
                + dec_rep(*l as nat) + ", position "@ + dec_rep(*p as nat)
                + ": a multi-byte sequence may be broken"@,
            Error::InvalidCodepoint(cp, l, p) => "invalid codepoint ("@ + dec_rep(*cp as nat)
                + ") at line "@ + dec_rep(*l as nat) + ", position "@ + dec_rep(*p as nat),
            Error::ReadError(s) => s@,
        }
    }

    /// Renders the failure as text.
    pub fn message(&self) -> (r: String)
        ensures
            r@ == self.message_spec(),
    {
        match self {
            Error::PeekBackError => String::from_str("peek-back was requested past the peek buffer"),
            Error::ConsumeError => String::from_str("consume was requested without a buffered peek"),
            Error::EOF(_, _) => String::from_str(""),
            Error::InvalidUTF8(b, l, p) => {
                let mut m = String::from_str("invalid byte (");
                m.append(usize_to_string(*b as usize).as_str());
                m.append(") at line ");
                m.append(usize_to_string(*l).as_str());
                m.append(", position ");
                m.append(usize_to_string(*p).as_str());
                m.append(": a multi-byte sequence may be broken");
                m
            },
            Error::InvalidCodepoint(cp, l, p) => {
                let mut m = String::from_str("invalid codepoint (");
                m.append(usize_to_string(*cp as usize).as_str());
                m.append(") at line ");
                m.append(usize_to_string(*l).as_str());
                m.append(", position ");
                m.append(usize_to_string(*p).as_str());
                m
            },
            Error::ReadError(s) => {
                let mut m = String::new();
                m.append(s.as_str());
                m
            },
        }
    }
}

/// How many bytes the decoder commits to after seeing the lead byte `b`;
/// 0 when `b` matches no UTF-8 lead pattern.
pub open spec fn lead_width(b: u8) -> int {
    if utf8::is_leading_byte_width_4(b) {
        4
    } else if utf8::is_leading_byte_width_3(b) {
        3
    } else if utf8::is_leading_byte_width_2(b) {
        2
    } else if utf8::is_leading_byte_width_1(b) {
        1
    } else {
        0
    }
}

/// True when positions `1..w` of `rem` are UTF-8 continuation bytes.
pub open spec fn continuations_ok(rem: Seq<u8>, w: int) -> bool {
    forall|j: int| 1 <= j < w ==> utf8::is_continuation_byte(#[trigger] rem[j])
}

/// The first byte among positions `1..w` of `rem` that is no continuation byte.
pub open spec fn first_bad_continuation(rem: Seq<u8>, w: int) -> u8 {
    if !utf8::is_continuation_byte(rem[1]) {
        rem[1]
    } else if !utf8::is_continuation_byte(rem[2]) {
        rem[2]
    } else {
        rem[3]
    }
}

/// The outcome of one decoding step on the remaining bytes `rem`.
pub enum DecodeStep {
    /// No byte is left, or the last sequence is cut off by the end of input.
    Eof,
    /// A lead or continuation byte breaks the UTF-8 patterns; carries that
    /// byte and the number of bytes the step consumed.
    BadByte(u8, int),
    /// The assembled value is no Unicode scalar; carries it and the number of
    /// bytes consumed.
    BadCodepoint(u32, int),
    /// One scalar decoded; carries it and the number of bytes consumed.
    Good(char, int),
}

/// One decoding step: classify the lead byte, check the continuation bytes,
/// assemble the value, and accept it when it is a Unicode scalar. A
/// multi-byte sequence cut off by the end of input is the end when nothing
/// follows the lead byte; with some continuation bytes present, the missing
/// ones read as zero, which no continuation pattern matches.
pub open spec fn step_of(rem: Seq<u8>) -> DecodeStep {
    if rem.len() == 0 {
        DecodeStep::Eof
    } else {
        let w = lead_width(rem[0]);
        if w == 0 {
            DecodeStep::BadByte(rem[0], 1)
        } else if rem.len() < w {
            if rem.len() == 1 {
                DecodeStep::Eof
            } else if !continuations_ok(rem, rem.len() as int) {
                DecodeStep::BadByte(first_bad_continuation(rem, rem.len() as int), rem.len() as int)
            } else {
                DecodeStep::BadByte(0, rem.len() as int)
            }
        } else if !continuations_ok(rem, w) {
            DecodeStep::BadByte(first_bad_continuation(rem, w), w)
        } else {
            let cp = utf8::decode_first_codepoint(rem);
            if utf8::is_scalar(cp) {
                DecodeStep::Good(cp as char, w)
            } else {
                DecodeStep::BadCodepoint(cp, w)
            }
        }
    }
}

/// The maximal run of decoded codepoints from `bytes[idx..]`, each with the
/// line and column it is reported at: columns count up from `pos + 1`, and a
/// newline moves to the next line, whose first character has column 1.
pub open spec fn stream(bytes: Seq<u8>, idx: int, line: usize, pos: usize) -> Seq<Codepoint>
    decreases bytes.len() - idx,
    when 0 <= idx <= bytes.len()
{
    match step_of(bytes.skip(idx)) {
        DecodeStep::Good(c, w) => seq![(c, line, (pos + 1) as usize)] + (if c == '\n' {
            stream(bytes, idx + w, (line + 1) as usize, 0)
        } else {
            stream(bytes, idx + w, line, (pos + 1) as usize)
        }),
        _ => Seq::empty(),
    }
}

/// The error a read reports in a state whose stream is exhausted.
pub open spec fn failure_of(bytes: Seq<u8>, idx: int, line: usize, pos: usize) -> Error {
    match step_of(bytes.skip(idx)) {
        DecodeStep::Eof => Error::EOF(line, pos),
        DecodeStep::BadByte(b, _) => Error::InvalidUTF8(b, line, pos),
        DecodeStep::BadCodepoint(cp, _) => Error::InvalidCodepoint(cp, line, (pos + 1) as usize),
        DecodeStep::Good(c, _) => Error::EOF(line, pos),
    }
}

/// The error that remains once every decodable codepoint of `bytes[idx..]`
/// has been read: end of input, or the first decoding failure.
pub open spec fn end_failure(bytes: Seq<u8>, idx: int, line: usize, pos: usize) -> Error
    decreases bytes.len() - idx,
    when 0 <= idx <= bytes.len()
{
    match step_of(bytes.skip(idx)) {
        DecodeStep::Good(c, w) => if c == '\n' {
            end_failure(bytes, idx + w, (line + 1) as usize, 0)
        } else {
            end_failure(bytes, idx + w, line, (pos + 1) as usize)
        },
        _ => failure_of(bytes, idx, line, pos),
    }
}

/// On a byte sequence that starts with a well-formed scalar encoding, the
/// decoder takes exactly that encoding and yields exactly that scalar.
proof fn lemma_good_step(rem: Seq<u8>)
    requires
        utf8::valid_first_scalar(rem),
    ensures
        step_of(rem) == DecodeStep::Good(
            utf8::decode_first_scalar(rem) as char,
            utf8::length_of_first_scalar(rem),
        ),
{
    let b0 = rem[0];
    let w = utf8::length_of_first_codepoint(rem);
    let cp = utf8::decode_first_codepoint(rem);
    assert(lead_width(b0) == w);
    assert(continuations_ok(rem, w));
    if utf8::is_leading_byte_width_1(b0) {
        assert(cp <= 0x7f) by {
            assert((b0 & 0x7f) <= 0x7f) by (bit_vector);
        }
    } else if utf8::is_leading_byte_width_2(b0) {
        let b1 = rem[1];
        assert(cp <= 0x7ff) by {
            assert(((((b0 & 0x1f) as u32) << 6) | ((b1 & 0x3f) as u32)) <= 0x7ff) by (bit_vector);
            assert(cp == (((b0 & 0x1f) as u32) << 6) | ((b1 & 0x3f) as u32));
        }
        assert(0x80 <= cp);
    } else if utf8::is_leading_byte_width_3(b0) {
        let b1 = rem[1];
        let b2 = rem[2];
        assert(cp <= 0xffff) by {
            assert(((((b0 & 0x0f) as u32) << 12) | (((b1 & 0x3f) as u32) << 6) | ((b2
                & 0x3f) as u32)) <= 0xffff) by (bit_vector);
            assert(cp == (((b0 & 0x0f) as u32) << 12) | (((b1 & 0x3f) as u32) << 6) | ((b2
                & 0x3f) as u32));
        }
        assert(0x800 <= cp);
        assert(!(0xd800 <= cp <= 0xdfff));
    } else {
        assert(0x10000 <= cp <= 0x10ffff);
    }
    assert(utf8::is_scalar(cp));
}

/// Decoding law, first half: on a valid UTF-8 suffix the decoder's stream
/// carries exactly the characters that the mathematical decoding gives.
pub proof fn lemma_stream_decodes(bytes: Seq<u8>, idx: int, line: usize, pos: usize)
    requires
        0 <= idx <= bytes.len() < usize::MAX,
        pos <= idx,
        line <= idx + 1,
        utf8::valid_utf8(bytes.skip(idx)),
    ensures
        stream(bytes, idx, line, pos).map_values(|it: Codepoint| it.0) =~= utf8::decode_utf8(
            bytes.skip(idx),
        ),
    decreases bytes.len() - idx,
{
    let rem = bytes.skip(idx);
    if rem.len() == 0 {
        assert(stream(bytes, idx, line, pos) =~= Seq::<Codepoint>::empty());
    } else {
        assert(utf8::valid_first_scalar(rem));
        lemma_good_step(rem);
        let c = utf8::decode_first_scalar(rem) as char;
        let w = utf8::length_of_first_scalar(rem);
        assert(utf8::pop_first_scalar(rem) =~= bytes.skip(idx + w));
        assert(utf8::valid_utf8(bytes.skip(idx + w)));
        let line2: usize = if c == '\n' {
            (line + 1) as usize
        } else {
            line
        };
        let pos2: usize = if c == '\n' {
            0
        } else {
            (pos + 1) as usize
        };
        lemma_stream_decodes(bytes, idx + w, line2, pos2);
        let head = (c, line, (pos + 1) as usize);
        assert(stream(bytes, idx, line, pos) =~= seq![head] + stream(bytes, idx + w, line2, pos2));
        assert(stream(bytes, idx, line, pos).map_values(|it: Codepoint| it.0) =~= seq![c] + stream(
            bytes,
            idx + w,
            line2,
            pos2,
        ).map_values(|it: Codepoint| it.0));
        assert(utf8::decode_utf8(rem) == seq![c] + utf8::decode_utf8(utf8::pop_first_scalar(rem)));
    }
}

/// Decoding law: decoding a valid UTF-8 byte sequence and re-encoding each
/// decoded scalar value reproduces the original bytes.
pub proof fn lemma_decode_reencode(bytes: Seq<u8>)
    requires
        bytes.len() < usize::MAX,
        utf8::valid_utf8(bytes),
    ensures
        stream(bytes, 0, 1, 0).map_values(|it: Codepoint| it.0) =~= utf8::decode_utf8(bytes),
        utf8::encode_utf8(stream(bytes, 0, 1, 0).map_values(|it: Codepoint| it.0)) =~= bytes,
{
    assert(bytes.skip(0) =~= bytes);
    lemma_stream_decodes(bytes, 0, 1, 0);
    utf8::decode_utf8_encode_utf8(bytes);
}

/// Position law: the first decoded item is reported one column past the
/// starting position; after each newline the column restarts at 1 on the next
/// line, and otherwise it advances by one on the same line.
pub proof fn lemma_stream_positions(bytes: Seq<u8>, idx: int, line: usize, pos: usize, i: int)
    requires
        0 <= idx <= bytes.len() < usize::MAX,
        pos <= idx,
        line <= idx + 1,
        0 <= i < stream(bytes, idx, line, pos).len(),
    ensures
        ({
            let items = stream(bytes, idx, line, pos);
            &&& items[0].1 == line && items[0].2 == pos + 1
            &&& (i > 0 ==> items[i].2 == if items[i - 1].0 == '\n' {
                1int
            } else {
                items[i - 1].2 + 1
            })
            &&& (i > 0 ==> items[i].1 == if items[i - 1].0 == '\n' {
                items[i - 1].1 + 1int
            } else {
                items[i - 1].1 as int
            })
        }),
    decreases i,
{
    let items = stream(bytes, idx, line, pos);
    let step = step_of(bytes.skip(idx));
    match step {
        DecodeStep::Good(c, w) => {
            let line2: usize = if c == '\n' {
                (line + 1) as usize
            } else {
                line
            };
            let pos2: usize = if c == '\n' {
                0
            } else {
                (pos + 1) as usize
            };
            let tail = stream(bytes, idx + w, line2, pos2);
            assert(items =~= seq![(c, line, (pos + 1) as usize)] + tail);
            if i > 0 {
                lemma_stream_positions(bytes, idx + w, line2, pos2, i - 1);
                if i > 1 {
                    assert(items[i] == tail[i - 1] && items[i - 1] == tail[i - 2]);
                }
            }
        },
        _ => {
            assert(items.len() == 0);
        },
    }
}

/// Decodes a byte sequence into Unicode scalar values, one at a time, keeping
/// 1-based line and column counters, and buffering peeked items so that
/// lookahead can be rewound before it is consumed for good.
#[derive(Debug)]
pub struct CharReader {
    bytes: Vec<u8>,
    idx: usize,
    line: usize,
    position: usize,
    peek_buffer: VecDeque<Codepoint>,
    peek_offset: usize,
}

impl CharReader {
    /// Internal soundness of the counters and the lookahead buffer.
    pub closed spec fn wf(&self) -> bool {
        &&& self.idx <= self.bytes@.len() < usize::MAX
        &&& self.peek_offset <= self.peek_buffer@.len()
        &&& self.peek_buffer@.len() <= self.idx
        &&& self.position <= self.idx
        &&& self.line <= self.idx + 1
    }

    /// The bytes the reader was created over.
    pub closed spec fn src(&self) -> Seq<u8> {
        self.bytes@
    }

    /// The items still to be returned by `read`, buffered lookahead first.
    pub closed spec fn read_future(&self) -> Seq<Codepoint> {
        self.peek_buffer@ + stream(self.bytes@, self.idx as int, self.line, self.position)
    }

    /// How many buffered items the peek cursor has passed and not rewound:
    /// the next `peek` observes `read_future()[peek_cursor()]`.
    pub closed spec fn peek_cursor(&self) -> int {
        self.peek_buffer@.len() - self.peek_offset
    }

    /// The items that `peek` will observe from here on, in order. `peek`
    /// observes exactly `peek_future()[0]` and shortens this sequence by
    /// one, leaving `read_future()` unchanged; `read` returns
    /// `read_future()[0]`. So whatever `peek` observes, `read` later
    /// returns, in the same order.
    pub open spec fn peek_future(&self) -> Seq<Codepoint> {
        self.read_future().skip(self.peek_cursor())
    }

    /// Lookahead law: when every peeked item has been rewound (as on a
    /// fresh reader), what `peek` will observe is exactly what `read` will
    /// return, item for item.
    pub proof fn lemma_lookahead_agreement(&self)
        requires
            self.wf(),
            self.peek_cursor() == 0,
        ensures
            self.peek_future() == self.read_future(),
    {
        assert(self.read_future().skip(0) =~= self.read_future());
    }

    /// The error that `read` or `peek` reports once `read_future()` is empty
    /// and the lookahead buffer is used up.
    pub closed spec fn next_failure(&self) -> Error {
        failure_of(self.bytes@, self.idx as int, self.line, self.position)
    }

    /// The error that reading will report after the whole of `read_future()`
    /// has been returned.
    pub closed spec fn stream_end(&self) -> Error {
        end_failure(self.bytes@, self.idx as int, self.line, self.position)
    }

    /// Once the undecoded part of the input is exhausted, the error still to
    /// come is the next failure itself.
    pub proof fn lemma_stream_end_at_exhaustion(&self)
        requires
            self.wf(),
            self.read_future().len() == 0,
        ensures
            self.stream_end() == self.next_failure(),
    {
        if step_of(self.bytes@.skip(self.idx as int)) is Good {
            assert(self.read_future().len() > self.buffered().len());
        }
    }

    /// A reader over `bytes`, at line 1 and column 0: the first decoded
    /// character is reported at column 1.
    pub fn new(bytes: Vec<u8>) -> (r: Self)
        requires
            bytes@.len() < usize::MAX,
        ensures
            r.wf(),
            r.src() == bytes@,
            r.read_future() == stream(bytes@, 0, 1, 0),
            r.peek_cursor() == 0,
            r.buffered() =~= Seq::<Codepoint>::empty(),
            r.next_failure() == failure_of(bytes@, 0, 1, 0),
            r.stream_end() == end_failure(bytes@, 0, 1, 0),
    {
        let r = CharReader {
            bytes,
            idx: 0,
            line: 1,
            position: 0,
            peek_buffer: VecDeque::new(),
            peek_offset: 0,
        };
        proof {
            assert(r.read_future() =~= stream(r.bytes@, 0, 1, 0));
        }
        r
    }

    /// The buffered lookahead items, oldest first.
    pub closed spec fn buffered(&self) -> Seq<Codepoint> {
        self.peek_buffer@
    }

    /// Looks one codepoint further ahead without consuming anything: returns
    /// `read_future()[peek_cursor()]`, buffering it so that later `read`
    /// calls still return it.
    pub fn peek(&mut self) -> (r: Result<Codepoint, Error>)
        requires
            old(self).wf(),
        ensures
            final(self).wf(),
            final(self).src() == old(self).src(),
            old(self).peek_cursor() < old(self).read_future().len() ==> {
                &&& r == Ok::<Codepoint, Error>(
                    old(self).read_future()[old(self).peek_cursor()],
                )
                &&& final(self).read_future() == old(self).read_future()
                &&& final(self).peek_cursor() == old(self).peek_cursor() + 1
                &&& final(self).buffered().len() == if old(self).peek_cursor() < old(self).buffered().len() {
                    old(self).buffered().len() as int
                } else {
                    old(self).buffered().len() + 1int
                }
                &&& final(self).stream_end() == old(self).stream_end()
            },
            old(self).peek_cursor() == old(self).read_future().len() ==> {
                &&& r == Err::<Codepoint, Error>(old(self).next_failure())
                &&& final(self).buffered() == old(self).buffered()
                &&& final(self).peek_cursor() == old(self).peek_cursor()
                &&& (old(self).next_failure() matches Error::EOF(_, _) ==> {
                    &&& final(self).read_future() =~= old(self).read_future()
                    &&& final(self).next_failure() == old(self).next_failure()
                    &&& final(self).stream_end() == old(self).stream_end()
                })
            },
    {
        proof {
            assert(old(self).read_future().len() >= old(self).buffered().len());
        }
        if self.peek_offset > 0 {
            let i = self.peek_buffer.len() - self.peek_offset;
            let item = *&self.peek_buffer[i];
            self.peek_offset = self.peek_offset - 1;
            proof {
                assert(old(self).read_future()[old(self).peek_cursor()] == old(self).buffered()[i as int]);
            }
            Ok(item)
        } else {
            let ghost pre = *self;
            let result = self.next();
            match result {
                Ok(item) => {
                    self.peek_buffer.push_back(item);
                    proof {
                        let b = pre.src();
                        let i = pre.idx as int;
                        let st = stream(b, i, pre.line, pre.position);
                        assert(st.len() > 0);
                        assert(item == st[0]);
                        assert(st.drop_first() =~= stream(
                            self.bytes@,
                            self.idx as int,
                            self.line,
                            self.position,
                        ));
                        assert(final(self).read_future() =~= old(self).read_future());
                        assert(old(self).read_future()[old(self).peek_cursor()] == item);
                    }
                    Ok(item)
                },
                Err(e) => {
                    proof {
                        let b = pre.src();
                        let i = pre.idx as int;
                        if stream(b, i, pre.line, pre.position).len() > 0 {
                            assert(step_of(b.skip(i)) is Good);
                            assert(false);
                        }
                        if step_of(b.skip(i)) is Eof {
                            assert(self.idx == b.len());
                            assert(b.skip(self.idx as int).len() == 0);
                            assert(stream(self.bytes@, self.idx as int, self.line, self.position)
                                =~= Seq::<Codepoint>::empty());
                            assert(final(self).read_future() =~= old(self).read_future());
                        }
                    }
                    Err(e)
                },
            }
        }
    }

    /// Rewinds the peek cursor by one buffered item, so that the next `peek`
    /// observes it again; fails when every buffered item is already rewound.
    pub fn peek_back(&mut self) -> (r: Result<(), Error>)
        requires
            old(self).wf(),
        ensures
            final(self).wf(),
            final(self).src() == old(self).src(),
            final(self).buffered() == old(self).buffered(),
            final(self).read_future() == old(self).read_future(),
            final(self).next_failure() == old(self).next_failure(),
            final(self).stream_end() == old(self).stream_end(),
            old(self).peek_cursor() == 0 ==> r == Err::<(), Error>(Error::PeekBackError)
                && final(self).peek_cursor() == 0,
            old(self).peek_cursor() > 0 ==> r == Ok::<(), Error>(()) && final(self).peek_cursor()
                == old(self).peek_cursor() - 1,
    {
        if self.peek_buffer.len() <= self.peek_offset {
            Err(Error::PeekBackError)
        } else {
            self.peek_offset = self.peek_offset + 1;
            Ok(())
        }
    }

    /// Removes the first `i` buffered items for good and hands their
    /// characters back as one string; fails when fewer are buffered, and then
    /// empties the buffer.
    pub fn consume(&mut self, i: usize) -> (r: Result<String, Error>)
        requires
            old(self).wf(),
        ensures
            final(self).wf(),
            final(self).src() == old(self).src(),
            final(self).next_failure() == old(self).next_failure(),
            final(self).stream_end() == old(self).stream_end(),
            i <= old(self).buffered().len() ==> {
                &&& r matches Ok(s) && s@ == old(self).buffered().take(i as int).map_values(
                    |it: Codepoint| it.0,
                )
                &&& final(self).buffered() == old(self).buffered().skip(i as int)
                &&& final(self).read_future() == old(self).read_future().skip(i as int)
            },
            i > old(self).buffered().len() ==> {
                &&& r == Err::<String, Error>(Error::ConsumeError)
                &&& final(self).buffered() =~= Seq::<Codepoint>::empty()
                &&& final(self).read_future() == old(self).read_future().skip(
                    old(self).buffered().len() as int,
                )
            },
    {
        let ghost pre = *self;
        let mut acc = String::new();
        let mut k: usize = 0;
        while k < i
            invariant
                old(self).wf(),
                pre == *old(self),
                k <= i,
                self.bytes == pre.bytes,
                self.idx == pre.idx,
                self.line == pre.line,
                self.position == pre.position,
                k <= pre.peek_buffer@.len(),
                self.peek_buffer@ == pre.peek_buffer@.skip(k as int),
                self.peek_offset <= self.peek_buffer@.len(),
                self.peek_buffer@.len() <= self.idx,
                acc@ == pre.peek_buffer@.take(k as int).map_values(|it: Codepoint| it.0),
                k < i ==> (i <= pre.peek_buffer@.len() || self.peek_buffer@.len() > 0 || k
                    == pre.peek_buffer@.len()),
            decreases i - k,
        {
            match self.peek_buffer.pop_front() {
                None => {
                    proof {
                        assert(pre.peek_buffer@.skip(k as int).len() == 0);
                        assert(i > pre.buffered().len());
                        assert(self.peek_buffer@ =~= Seq::<Codepoint>::empty());
                        assert(final(self).read_future() =~= old(self).read_future().skip(
                            old(self).buffered().len() as int,
                        ));
                    }
                    return Err(Error::ConsumeError);
                },
                Some(item) => {
                    if self.peek_offset >= 1 {
                        self.peek_offset = self.peek_offset - 1;
                    } else {
                        self.peek_offset = 0;
                    }
                    push_char(&mut acc, item.0);
                    proof {
                        assert(pre.peek_buffer@.skip(k as int)[0] == pre.peek_buffer@[k as int]);
                        assert(pre.peek_buffer@.skip(k as int).drop_first() =~= pre.peek_buffer@.skip(
                            k + 1,
                        ));
                        assert(pre.peek_buffer@.take(k + 1).map_values(|it: Codepoint| it.0)
                            =~= pre.peek_buffer@.take(k as int).map_values(
                            |it: Codepoint| it.0,
                        ).push(pre.peek_buffer@[k as int].0));
                    }
                    k = k + 1;
                },
            }
        }
        proof {
            assert(i <= pre.buffered().len());
            assert(final(self).read_future() =~= old(self).read_future().skip(i as int));
        }
        Ok(acc)
    }

    /// Returns the next codepoint for good: the oldest buffered item when one
    /// exists, else the next one decoded from the bytes.
    pub fn read(&mut self) -> (r: Result<Codepoint, Error>)
        requires
            old(self).wf(),
        ensures
            final(self).wf(),
            final(self).src() == old(self).src(),
            old(self).read_future().len() > 0 ==> {
                &&& r == Ok::<Codepoint, Error>(old(self).read_future()[0])
                &&& final(self).read_future() == old(self).read_future().drop_first()
                &&& final(self).buffered() == if old(self).buffered().len() > 0 {
                    old(self).buffered().drop_first()
                } else {
                    old(self).buffered()
                }
                &&& final(self).peek_cursor() == if old(self).peek_cursor() < old(self).buffered().len() {
                    old(self).peek_cursor() as int
                } else if old(self).peek_cursor() > 0 {
                    old(self).peek_cursor() - 1
                } else {
                    0
                }
                &&& (old(self).buffered().len() > 0 ==> final(self).next_failure() == old(self).next_failure())
                &&& final(self).stream_end() == old(self).stream_end()
            },
            old(self).read_future().len() == 0 ==> {
                &&& r == Err::<Codepoint, Error>(old(self).next_failure())
                &&& final(self).buffered() == old(self).buffered()
                &&& final(self).peek_cursor() == old(self).peek_cursor()
                &&& (old(self).next_failure() matches Error::EOF(_, _) ==> {
                    &&& final(self).read_future() =~= Seq::<Codepoint>::empty()
                    &&& final(self).next_failure() == old(self).next_failure()
                    &&& final(self).stream_end() == old(self).stream_end()
                })
            },
    {
        if self.peek_buffer.len() == 0 {
            let ghost pre = *self;
            let result = self.next();
            proof {
                let b = pre.src();
                let i = pre.idx as int;
                let st = stream(b, i, pre.line, pre.position);
                if st.len() > 0 {
                    assert(st.drop_first() =~= stream(
                        self.bytes@,
                        self.idx as int,
                        self.line,
                        self.position,
                    ));
                    assert(final(self).read_future() =~= old(self).read_future().drop_first());
                } else {
                    if step_of(b.skip(i)) is Good {
                        assert(false);
                    }
                    if step_of(b.skip(i)) is Eof {
                        assert(self.idx == b.len());
                        assert(b.skip(self.idx as int).len() == 0);
                        assert(stream(self.bytes@, self.idx as int, self.line, self.position)
                            =~= Seq::<Codepoint>::empty());
                        assert(final(self).read_future() =~= Seq::<Codepoint>::empty());
                    }
                }
            }
            result
        } else {
            match self.peek_buffer.pop_front() {
                Some(item) => {
                    if self.peek_offset >= 1 {
                        self.peek_offset = self.peek_offset - 1;
                    } else {
                        self.peek_offset = 0;
                    }
                    proof {
                        assert(old(self).read_future()[0] == old(self).buffered()[0]);
                        assert(final(self).read_future() =~= old(self).read_future().drop_first());
                    }
                    Ok(item)
                },
                None => {
                    proof {
                        assert(false);
                    }
                    Err(Error::ReadError(String::new()))
                },
            }
        }
    }

    /// Decodes the next codepoint straight from the bytes, ignoring the
    /// lookahead buffer, and moves the line and column counters.
    fn next(&mut self) -> (r: Result<Codepoint, Error>)
        requires
            old(self).wf(),
        ensures
            final(self).wf(),
            final(self).src() == old(self).src(),
            final(self).peek_buffer@ == old(self).peek_buffer@,
            final(self).peek_offset == old(self).peek_offset,
            match step_of(old(self).src().skip(old(self).idx as int)) {
                DecodeStep::Good(c, w) => {
                    &&& r == Ok::<Codepoint, Error>(
                        (c, old(self).line, (old(self).position + 1) as usize),
                    )
                    &&& final(self).idx == old(self).idx + w
                    &&& (c == '\n' ==> final(self).line == old(self).line + 1 && final(self).position == 0)
                    &&& (c != '\n' ==> final(self).line == old(self).line && final(self).position
                        == old(self).position + 1)
                },
                DecodeStep::Eof => {
                    &&& r == Err::<Codepoint, Error>(
                        Error::EOF(old(self).line, old(self).position),
                    )
                    &&& final(self).idx == old(self).src().len()
                    &&& final(self).line == old(self).line
                    &&& final(self).position == old(self).position
                },
                DecodeStep::BadByte(b, n) => {
                    &&& r == Err::<Codepoint, Error>(
                        Error::InvalidUTF8(b, old(self).line, old(self).position),
                    )
                    &&& final(self).idx == old(self).idx + n
                    &&& final(self).line == old(self).line
                    &&& final(self).position == old(self).position
                },
                DecodeStep::BadCodepoint(cp, n) => {
                    &&& r == Err::<Codepoint, Error>(
                        Error::InvalidCodepoint(
                            cp,
                            old(self).line,
                            (old(self).position + 1) as usize,
                        ),
                    )
                    &&& final(self).idx == old(self).idx + n
                    &&& final(self).line == old(self).line
                    &&& final(self).position == old(self).position + 1
                },
            },
    {
        let ghost rem = self.bytes@.skip(self.idx as int);
        let len = self.bytes.len();
        if self.idx >= len {
            return Err(Error::EOF(self.line, self.position));
        }
        let b0 = self.bytes[self.idx];
        proof {
            assert(rem[0] == b0);
            assert(rem.len() == len - self.idx);
        }
        let w: usize = if b0 & 0xf8 == 0xf0 {
            proof {
                assert(b0 & 0xf8 == 0xf0 ==> 0xf0 <= b0 <= 0xf7) by (bit_vector);
            }
            4
        } else if b0 & 0xf0 == 0xe0 {
            proof {
                assert(b0 & 0xf0 == 0xe0 ==> 0xe0 <= b0 <= 0xef) by (bit_vector);
            }
            3
        } else if b0 & 0xe0 == 0xc0 {
            proof {
                assert(b0 & 0xe0 == 0xc0 ==> 0xc0 <= b0 <= 0xdf) by (bit_vector);
            }
            2
        } else if b0 & 0x80 == 0 {
            proof {
                assert(b0 & 0x80 == 0 ==> b0 <= 0x7f) by (bit_vector);
            }
            1
        } else {
            proof {
                assert((b0 & 0xf8 != 0xf0 && b0 & 0xf0 != 0xe0 && b0 & 0xe0 != 0xc0 && b0 & 0x80
                    != 0) ==> !(b0 <= 0x7f) && !(0xc0 <= b0 <= 0xdf) && !(0xe0 <= b0 <= 0xef) && !(
                0xf0 <= b0 <= 0xf7)) by (bit_vector);
            }
            self.idx = self.idx + 1;
            return Err(Error::InvalidUTF8(b0, self.line, self.position));
        };
        proof {
            assert(b0 & 0xf8 == 0xf0 ==> !(b0 <= 0x7f) && !(0xc0 <= b0 <= 0xdf) && !(0xe0 <= b0
                <= 0xef)) by (bit_vector);
            assert(b0 & 0xf0 == 0xe0 ==> !(b0 <= 0x7f) && !(0xc0 <= b0 <= 0xdf) && !(0xf0 <= b0
                <= 0xf7)) by (bit_vector);
            assert(b0 & 0xe0 == 0xc0 ==> !(b0 <= 0x7f) && !(0xe0 <= b0 <= 0xef) && !(0xf0 <= b0
                <= 0xf7)) by (bit_vector);
            assert(b0 & 0x80 == 0 ==> !(0xc0 <= b0 <= 0xdf) && !(0xe0 <= b0 <= 0xef) && !(0xf0 <= b0
                <= 0xf7)) by (bit_vector);
            assert(lead_width(rem[0]) == w);
        }
        if len - self.idx < w {
            let avail = len - self.idx - 1;
            if avail == 0 {
                self.idx = len;
                return Err(Error::EOF(self.line, self.position));
            }
            let b1 = self.bytes[self.idx + 1];
            proof {
                assert(rem[1] == b1);
            }
            if b1 & 0xc0 != 0x80 {
                proof {
                    assert(b1 & 0xc0 != 0x80 ==> !(0x80 <= b1 <= 0xbf)) by (bit_vector);
                }
                self.idx = len;
                return Err(Error::InvalidUTF8(b1, self.line, self.position));
            }
            proof {
                assert(b1 & 0xc0 == 0x80 ==> 0x80 <= b1 <= 0xbf) by (bit_vector);
            }
            if avail >= 2 {
                let b2 = self.bytes[self.idx + 2];
                proof {
                    assert(rem[2] == b2);
                }
                if b2 & 0xc0 != 0x80 {
                    proof {
                        assert(b2 & 0xc0 != 0x80 ==> !(0x80 <= b2 <= 0xbf)) by (bit_vector);
                    }
                    self.idx = len;
                    return Err(Error::InvalidUTF8(b2, self.line, self.position));
                }
                proof {
                    assert(b2 & 0xc0 == 0x80 ==> 0x80 <= b2 <= 0xbf) by (bit_vector);
                }
            }
            self.idx = len;
            return Err(Error::InvalidUTF8(0, self.line, self.position));
        }
        let mut cp: u32 = 0;
        if w == 4 {
            let b1 = self.bytes[self.idx + 1];
            let b2 = self.bytes[self.idx + 2];
            let b3 = self.bytes[self.idx + 3];
            proof {
                assert(rem[1] == b1 && rem[2] == b2 && rem[3] == b3);
            }
            self.idx = self.idx + 4;
            if b1 & 0xc0 != 0x80 {
                proof {
                    assert(b1 & 0xc0 != 0x80 ==> !(0x80 <= b1 <= 0xbf)) by (bit_vector);
                }
                return Err(Error::InvalidUTF8(b1, self.line, self.position));
            }
            if b2 & 0xc0 != 0x80 {
                proof {
                    assert(b1 & 0xc0 == 0x80 ==> 0x80 <= b1 <= 0xbf) by (bit_vector);
                    assert(b2 & 0xc0 != 0x80 ==> !(0x80 <= b2 <= 0xbf)) by (bit_vector);
                }
                return Err(Error::InvalidUTF8(b2, self.line, self.position));
            }
            if b3 & 0xc0 != 0x80 {
                proof {
                    assert(b1 & 0xc0 == 0x80 ==> 0x80 <= b1 <= 0xbf) by (bit_vector);
                    assert(b2 & 0xc0 == 0x80 ==> 0x80 <= b2 <= 0xbf) by (bit_vector);
                    assert(b3 & 0xc0 != 0x80 ==> !(0x80 <= b3 <= 0xbf)) by (bit_vector);
                }
                return Err(Error::InvalidUTF8(b3, self.line, self.position));
            }
            proof {
                assert(b1 & 0xc0 == 0x80 ==> 0x80 <= b1 <= 0xbf) by (bit_vector);
                assert(b2 & 0xc0 == 0x80 ==> 0x80 <= b2 <= 0xbf) by (bit_vector);
                assert(b3 & 0xc0 == 0x80 ==> 0x80 <= b3 <= 0xbf) by (bit_vector);
            }
            cp = (((b0 & 0x07) as u32) << 18u32) | (((b1 & 0x3f) as u32) << 12u32) | (((b2
                & 0x3f) as u32) << 6u32) | ((b3 & 0x3f) as u32);
            proof {
                assert(cp == utf8::codepoint_width_4(b0, b1, b2, b3));
            }
        } else if w == 3 {
            let b1 = self.bytes[self.idx + 1];
            let b2 = self.bytes[self.idx + 2];
            proof {
                assert(rem[1] == b1 && rem[2] == b2);
            }
            self.idx = self.idx + 3;
            if b1 & 0xc0 != 0x80 {
                proof {
                    assert(b1 & 0xc0 != 0x80 ==> !(0x80 <= b1 <= 0xbf)) by (bit_vector);
                }
                return Err(Error::InvalidUTF8(b1, self.line, self.position));
            }
            if b2 & 0xc0 != 0x80 {
                proof {
                    assert(b1 & 0xc0 == 0x80 ==> 0x80 <= b1 <= 0xbf) by (bit_vector);
                    assert(b2 & 0xc0 != 0x80 ==> !(0x80 <= b2 <= 0xbf)) by (bit_vector);
                }
                return Err(Error::InvalidUTF8(b2, self.line, self.position));
            }
            proof {
                assert(b1 & 0xc0 == 0x80 ==> 0x80 <= b1 <= 0xbf) by (bit_vector);
                assert(b2 & 0xc0 == 0x80 ==> 0x80 <= b2 <= 0xbf) by (bit_vector);
            }
            cp = (((b0 & 0x0f) as u32) << 12u32) | (((b1 & 0x3f) as u32) << 6u32) | ((b2
                & 0x3f) as u32);
            proof {
                assert(cp == utf8::codepoint_width_3(b0, b1, b2));
            }
        } else if w == 2 {
            let b1 = self.bytes[self.idx + 1];
            proof {
                assert(rem[1] == b1);
            }
            self.idx = self.idx + 2;
            if b1 & 0xc0 != 0x80 {
                proof {
                    assert(b1 & 0xc0 != 0x80 ==> !(0x80 <= b1 <= 0xbf)) by (bit_vector);
                }
                return Err(Error::InvalidUTF8(b1, self.line, self.position));
            }
            proof {
                assert(b1 & 0xc0 == 0x80 ==> 0x80 <= b1 <= 0xbf) by (bit_vector);
            }
            cp = (((b0 & 0x1f) as u32) << 6u32) | ((b1 & 0x3f) as u32);
            proof {
                assert(cp == utf8::codepoint_width_2(b0, b1));
            }
        } else {
            self.idx = self.idx + 1;
            cp = b0 as u32;
            proof {
                assert(b0 & 0x80 == 0 ==> (b0 & 0x7f) == b0) by (bit_vector);
                assert(cp == utf8::codepoint_width_1(b0));
            }
        }
        proof {
            assert(continuations_ok(rem, w as int));
            assert(cp == utf8::decode_first_codepoint(rem));
        }
        self.position = self.position + 1;
        match char::from_u32(cp) {
            None => Err(Error::InvalidCodepoint(cp, self.line, self.position)),
            Some(c) => {
                proof {
                    utf8::char_u32_cast(c, cp);
                }
                let r = (c, self.line, self.position);
                if c == '\n' {
                    self.line = self.line + 1;
                    self.position = 0;
                }
                Ok(r)
            },
        }
    }
}

} // verus!
