//! The lexer: groups decoded codepoints into classified tokens, with
//! one-token lookahead for the parser above it.

use crate::char_reader;
use crate::char_reader::CharReader;
use crate::char_reader::Codepoint;
use crate::text::push_char;
use crate::token::Token;
use crate::token::TokenV;
use crate::token::Type;
use crate::token::TypeV;
use vstd::prelude::*;

verus! {

/// Failures the lexer reports.
#[derive(Debug, PartialEq)]
pub enum Error {
    /// End of input; never produced, since the end of input is returned as
    /// the EOF token.
    EOF,
    /// A failure of the underlying reader, rendered as text.
    ReaderError(String),
}

/// True of the horizontal whitespace characters that merge into one Space
/// token: space, tab and carriage return.
pub open spec fn is_hws(c: char) -> bool {
    c == ' ' || c == '\t' || c == '\r'
}

/// True when `c` at column `pos` opens a token of its own rather than
/// extending an identifier.
pub open spec fn is_special(c: char, pos: int) -> bool {
    ||| is_hws(c)
    ||| c == '\n'
    ||| c == '.'
    ||| c == '='
    ||| ((c == '#' || c == ';') && pos == 1)
    ||| (c == '-' && pos == 1)
}

/// The first index at or after `j` where the run of horizontal whitespace
/// stops, or the length of `items` when it runs to the end.
pub open spec fn hws_run(items: Seq<Codepoint>, j: int) -> int
    decreases items.len() - j,
    when 0 <= j <= items.len()
{
    if j == items.len() || !is_hws(items[j].0) {
        j
    } else {
        hws_run(items, j + 1)
    }
}

/// The first index at or after `j` where an identifier stops extending, or
/// the length of `items` when it runs to the end.
pub open spec fn ident_run(items: Seq<Codepoint>, j: int) -> int
    decreases items.len() - j,
    when 0 <= j <= items.len()
{
    if j == items.len() || is_special(items[j].0, items[j].2 as int) {
        j
    } else {
        ident_run(items, j + 1)
    }
}

/// An identifier run never stops before the index it starts from.
proof fn lemma_ident_run_lower(items: Seq<Codepoint>, j: int)
    requires
        0 <= j <= items.len(),
    ensures
        ident_run(items, j) >= j,
    decreases items.len() - j,
{
    if j < items.len() && !is_special(items[j].0, items[j].2 as int) {
        lemma_ident_run_lower(items, j + 1);
    }
}

/// A token of one column.
pub open spec fn single(l: int, p: int, ty: TypeV) -> TokenV {
    TokenV { line: l, start: p, end: p, ty }
}

/// The token formed at the head of `items`, with the count of codepoints it
/// consumes. `None` when the token runs into the end of the input and the
/// input does not end cleanly (`eof_end` is false): the lexer then reports
/// the reader's failure instead of a token.
pub open spec fn lex1(items: Seq<Codepoint>, eof_end: bool) -> Option<(TokenV, int)>
    recommends
        items.len() > 0,
{
    let c = items[0].0;
    let l = items[0].1 as int;
    let p = items[0].2 as int;
    if is_hws(c) {
        let e = hws_run(items, 1);
        if e == items.len() && !eof_end {
            None
        } else {
            Some((TokenV { line: l, start: p, end: items[e - 1].2 as int, ty: TypeV::Space }, e))
        }
    } else if c == '\n' {
        Some((single(l, p, TypeV::Return), 1))
    } else if c == '.' {
        Some((single(l, p, TypeV::Dot), 1))
    } else if c == '=' {
        Some((single(l, p, TypeV::Equal), 1))
    } else if (c == '#' || c == ';') && p == 1 {
        Some((single(l, p, TypeV::Comment), 1))
    } else if c == '-' && p == 1 {
        Some((single(l, p, TypeV::Ignore), 1))
    } else if c == '-' && items.len() >= 2 && items[1].0 == '>' {
        Some((TokenV { line: l, start: p, end: items[1].2 as int, ty: TypeV::Equal }, 2))
    } else {
        let e = ident_run(items, 1);
        if e == items.len() && !eof_end {
            None
        } else {
            Some(
                (
                    TokenV {
                        line: l,
                        start: p,
                        end: items[e - 1].2 as int,
                        ty: TypeV::Ident(items.take(e).map_values(|it: Codepoint| it.0)),
                    },
                    e,
                ),
            )
        }
    }
}

/// All tokens formed from `items`, in order, stopping where a token runs
/// into an unclean end of input.
pub open spec fn token_stream(items: Seq<Codepoint>, eof_end: bool) -> Seq<TokenV>
    decreases items.len(),
{
    if items.len() == 0 {
        Seq::empty()
    } else {
        match lex1(items, eof_end) {
            Some((t, n)) => if 1 <= n <= items.len() {
                seq![t] + token_stream(items.skip(n), eof_end)
            } else {
                Seq::empty()
            },
            None => Seq::empty(),
        }
    }
}

/// The EOF token, at the line and column the reader ends on.
pub open spec fn eof_token(l: usize, p: usize) -> TokenV {
    TokenV { line: l as int, start: p as int, end: p as int, ty: TypeV::EOF }
}

/// The tokens a fresh reader in this state will deliver: the lexed stream,
/// closed by the EOF token when the input ends cleanly.
pub open spec fn reader_toks(r: &CharReader) -> Seq<TokenV> {
    let items = r.read_future();
    match r.stream_end() {
        char_reader::Error::EOF(l, p) => token_stream(items, true) + seq![eof_token(l, p)],
        _ => token_stream(items, false),
    }
}

/// The tokens of a byte sequence, from a fresh reader over it.
pub open spec fn tokens_of(bytes: Seq<u8>) -> Seq<TokenV> {
    let items = char_reader::stream(bytes, 0, 1, 0);
    match char_reader::end_failure(bytes, 0, 1, 0) {
        char_reader::Error::EOF(l, p) => token_stream(items, true) + seq![eof_token(l, p)],
        _ => token_stream(items, false),
    }
}

/// Groups the reader's codepoints into tokens; `peek` computes one token
/// ahead and caches it until `next` drains it.
pub struct Lexer {
    reader: CharReader,
    peeking: Option<Result<Token, Error>>,
}

impl Lexer {
    /// Internal soundness: the reader is sound, its lookahead is fully
    /// rewound, and a cached EOF token faithfully marks the end.
    pub closed spec fn wf(&self) -> bool {
        &&& self.reader.wf()
        &&& self.reader.peek_cursor() == self.reader.buffered().len()
        &&& self.reader.buffered().len() <= 1
        &&& match self.peeking {
            None => true,
            Some(Ok(t)) => t@.ty is EOF ==> self.reader.read_future().len() == 0
                && self.reader.stream_end() == char_reader::Error::EOF(t.loc.line, t.loc.start)
                && t.loc.start == t.loc.end,
            Some(Err(e)) => e is ReaderError,
        }
    }

    /// The tokens still to come, a cached one first; the EOF token, when the
    /// input ends cleanly, is the last. Empty when the next call fails.
    pub closed spec fn toks(&self) -> Seq<TokenV> {
        match self.peeking {
            None => reader_toks(&self.reader),
            Some(Ok(t)) => if t@.ty is EOF {
                reader_toks(&self.reader)
            } else {
                seq![t@] + reader_toks(&self.reader)
            },
            Some(Err(_)) => Seq::empty(),
        }
    }

    /// The message of the failure that ends the token stream, when `toks()`
    /// does not end in the EOF token.
    pub closed spec fn end_message(&self) -> Seq<char> {
        match self.peeking {
            Some(Err(Error::ReaderError(m))) => m@,
            _ => self.reader.stream_end().message_spec(),
        }
    }

    /// True when no peeked token is cached.
    pub closed spec fn drained(&self) -> bool {
        self.peeking is None
    }

    /// True when the reader stands at a clean end of input that the EOF
    /// token `tv` reports faithfully.
    pub closed spec fn eof_mark(&self, tv: TokenV) -> bool {
        match self.reader.stream_end() {
            char_reader::Error::EOF(l, p) => {
                &&& self.reader.read_future().len() == 0
                &&& l == tv.line
                &&& p == tv.start
                &&& tv.start == tv.end
            },
            _ => false,
        }
    }

    /// A freshly lexed token peels off the front of the token stream.
    proof fn lemma_toks_step(pre: Lexer, post: Lexer, tv: TokenV, n: int)
        requires
            pre.wf(),
            pre.peeking is None,
            post.peeking is None,
            pre.reader.read_future().len() > 0,
            lex1(
                pre.reader.read_future(),
                pre.reader.stream_end() matches char_reader::Error::EOF(_, _),
            ) == Some((tv, n)),
            1 <= n <= pre.reader.read_future().len(),
            post.reader.read_future() =~= pre.reader.read_future().skip(n),
            post.reader.stream_end() == pre.reader.stream_end(),
        ensures
            pre.toks().len() > 0,
            pre.toks()[0] == tv,
            post.toks() =~~= pre.toks().drop_first(),
            post.end_message() == pre.end_message(),
    {
        let items = pre.reader.read_future();
        let eof = pre.reader.stream_end() matches char_reader::Error::EOF(_, _);
        assert(token_stream(items, eof) =~~= seq![tv] + token_stream(items.skip(n), eof));
        match pre.reader.stream_end() {
            char_reader::Error::EOF(l, p) => {
                assert(pre.toks() =~~= (seq![tv] + token_stream(items.skip(n), eof)) + seq![
                    eof_token(l, p),
                ]);
                assert(pre.toks() =~~= seq![tv] + (token_stream(items.skip(n), eof) + seq![
                    eof_token(l, p),
                ]));
            },
            _ => {},
        }
    }

    /// When a token runs into an unclean end of the input, the stream holds
    /// no token at all: the next call reports the failure.
    proof fn lemma_toks_fail(pre: Lexer)
        requires
            pre.wf(),
            pre.peeking is None,
            pre.reader.read_future().len() > 0,
            !(pre.reader.stream_end() matches char_reader::Error::EOF(_, _)),
            lex1(pre.reader.read_future(), false) is None,
        ensures
            pre.toks().len() == 0,
    {
    }

    /// A lexer over `bytes`.
    pub fn new(bytes: Vec<u8>) -> (r: Self)
        requires
            bytes@.len() < usize::MAX,
        ensures
            r.wf(),
            r.toks() == tokens_of(bytes@),
            r.end_message() == char_reader::end_failure(bytes@, 0, 1, 0).message_spec(),
    {
        Lexer { reader: CharReader::new(bytes), peeking: None }
    }

    /// Returns the next token, draining a cached peeked token first. The end
    /// of input comes back as the EOF token, again and again; a decoding
    /// failure comes back as an error.
    pub fn next(&mut self) -> (r: Result<Token, Error>)
        requires
            old(self).wf(),
        ensures
            final(self).wf(),
            final(self).drained(),
            old(self).toks().len() > 0 ==> (r matches Ok(t) && t@ == old(self).toks()[0]
                && (t@.ty is EOF ==> final(self).toks() =~~= old(self).toks()
                && final(self).eof_mark(t@) && final(self).end_message() == old(self).end_message())
                && (!(t@.ty is EOF) ==> final(self).toks() =~~= old(self).toks().drop_first()
                && final(self).end_message() == old(self).end_message())),
            old(self).toks().len() == 0 ==> (r matches Err(e) && (e matches Error::ReaderError(m)
                && m@ == old(self).end_message())),
    {
        if self.peeking.is_some() {
            let cached = self.peeking.take().unwrap();
            proof {
                match old(self).peeking {
                    Some(Ok(t)) => {
                        if t@.ty is EOF {
                            assert(token_stream(old(self).reader.read_future(), true)
                                =~= Seq::<TokenV>::empty());
                            assert(old(self).toks().len() == 1);
                        } else {
                            assert(old(self).toks()[0] == t@);
                            assert(final(self).toks() =~~= old(self).toks().drop_first());
                        }
                    },
                    _ => {},
                }
            }
            return cached;
        }
        let ghost pre = *self;
        let ghost items = self.reader.read_future();
        let ghost eof0 = self.reader.stream_end() matches char_reader::Error::EOF(_, _);
        let first = self.reader.read();
        let (c, line, pos) = match first {
            Err(e) => {
                proof {
                    assert(items.len() == 0);
                    pre.reader.lemma_stream_end_at_exhaustion();
                    assert(token_stream(items, eof0) =~= Seq::<TokenV>::empty());
                }
                match e {
                    char_reader::Error::EOF(l, p) => {
                        proof {
                            assert(pre.reader.stream_end() == char_reader::Error::EOF(l, p));
                            assert(pre.toks() =~~= seq![eof_token(l, p)]);
                        }
                        return Ok(Token::new(l, p, p, Type::EOF));
                    },
                    other => {
                        proof {
                            assert(pre.toks().len() == 0);
                        }
                        return Err(Error::ReaderError(other.message()));
                    },
                }
            },
            Ok(item) => item,
        };
        proof {
            assert(items.len() > 0 && items[0] == (c, line, pos));
            assert(self.reader.read_future() =~= items.skip(1));
        }
        if c == ' ' || c == '\t' || c == '\r' {
            let ghost e_run = hws_run(items, 1);
            let mut last_pos = pos;
            let mut done = false;
            let ghost mut j: int = 1;
            while !done
                invariant
                    pre == *old(self),
                    self.reader.wf(),
                    self.reader.peek_cursor() == self.reader.buffered().len(),
                    self.reader.buffered().len() <= 1,
                    self.peeking is None,
                    pre.wf(),
                    pre.peeking is None,
                    items == pre.reader.read_future(),
                    eof0 == (pre.reader.stream_end() matches char_reader::Error::EOF(_, _)),
                    is_hws(items[0].0),
                    1 <= j <= items.len(),
                    self.reader.read_future() == items.skip(j),
                    self.reader.stream_end() == pre.reader.stream_end(),
                    e_run == hws_run(items, 1),
                    hws_run(items, j) == e_run,
                    line == items[0].1,
                    pos == items[0].2,
                    last_pos == items[j - 1].2,
                    !done ==> self.reader.buffered().len() == 0,
                    done ==> j == e_run && (j < items.len() || eof0),
                decreases items.len() - j + (if done {
                    0int
                } else {
                    1int
                }),
            {
                let ghost rb = self.reader;
                let peeked = self.reader.peek();
                match peeked {
                    Err(e) => {
                        proof {
                            assert(j == items.len());
                            rb.lemma_stream_end_at_exhaustion();
                            assert(e == rb.next_failure());
                        }
                        match e {
                            char_reader::Error::EOF(_, _) => {
                                done = true;
                            },
                            other => {
                                proof {
                                    assert(!eof0);
                                    assert(lex1(items, false) is None);
                                    Self::lemma_toks_fail(pre);
                                    assert(other.message_spec() == pre.end_message());
                                }
                                return Err(Error::ReaderError(other.message()));
                            },
                        }
                    },
                    Ok(item) => {
                        proof {
                            assert(item == items[j]);
                        }
                        if item.0 == ' ' || item.0 == '\t' || item.0 == '\r' {
                            last_pos = item.2;
                            let again = self.reader.read();
                            proof {
                                assert(again is Ok);
                                assert(self.reader.read_future() =~= items.skip(j + 1));
                                assert(hws_run(items, j) == hws_run(items, j + 1));
                                j = j + 1;
                            }
                        } else {
                            done = true;
                            proof {
                                assert(hws_run(items, j) == j);
                            }
                        }
                    },
                }
            }
            proof {
                let tv = TokenV {
                    line: line as int,
                    start: pos as int,
                    end: items[e_run - 1].2 as int,
                    ty: TypeV::Space,
                };
                assert(lex1(items, eof0) == Some((tv, e_run)));
                Self::lemma_toks_step(pre, *self, tv, e_run);
            }
            Ok(Token::new(line, pos, last_pos, Type::Space))
        } else if c == '\n' {
            proof {
                Self::lemma_toks_step(
                    pre,
                    *self,
                    single(line as int, pos as int, TypeV::Return),
                    1,
                );
            }
            Ok(Token::new(line, pos, pos, Type::Return))
        } else if c == '.' {
            proof {
                Self::lemma_toks_step(pre, *self, single(line as int, pos as int, TypeV::Dot), 1);
            }
            Ok(Token::new(line, pos, pos, Type::Dot))
        } else if c == '=' {
            proof {
                Self::lemma_toks_step(pre, *self, single(line as int, pos as int, TypeV::Equal), 1);
            }
            Ok(Token::new(line, pos, pos, Type::Equal))
        } else if (c == '#' || c == ';') && pos == 1 {
            proof {
                Self::lemma_toks_step(
                    pre,
                    *self,
                    single(line as int, pos as int, TypeV::Comment),
                    1,
                );
            }
            Ok(Token::new(line, pos, pos, Type::Comment))
        } else if c == '-' && pos == 1 {
            proof {
                Self::lemma_toks_step(
                    pre,
                    *self,
                    single(line as int, pos as int, TypeV::Ignore),
                    1,
                );
            }
            Ok(Token::new(line, pos, pos, Type::Ignore))
        } else {
            let ghost e_run = ident_run(items, 1);
            let arrow = String::from_str("->");
            proof {
                reveal_strlit("->");
            }
            let mut value = String::new();
            push_char(&mut value, c);
            let mut last_pos = pos;
            let mut done = false;
            let ghost mut j: int = 1;
            while !done
                invariant
                    pre == *old(self),
                    self.reader.wf(),
                    self.reader.peek_cursor() == self.reader.buffered().len(),
                    self.reader.buffered().len() <= 1,
                    self.peeking is None,
                    pre.wf(),
                    pre.peeking is None,
                    items == pre.reader.read_future(),
                    eof0 == (pre.reader.stream_end() matches char_reader::Error::EOF(_, _)),
                    !is_special(items[0].0, items[0].2 as int),
                    j >= 2 ==> !(items[0].0 == '-' && items[1].0 == '>'),
                    items[0].0 == c,
                    arrow@ == seq!['-', '>'],
                    1 <= j <= items.len(),
                    self.reader.read_future() == items.skip(j),
                    self.reader.stream_end() == pre.reader.stream_end(),
                    e_run == ident_run(items, 1),
                    ident_run(items, j) == e_run,
                    line == items[0].1,
                    pos == items[0].2,
                    last_pos == items[j - 1].2,
                    value@ == items.take(j).map_values(|it: Codepoint| it.0),
                    !done ==> self.reader.buffered().len() == 0,
                    done ==> j == e_run && (j < items.len() || eof0),
                decreases items.len() - j + (if done {
                    0int
                } else {
                    1int
                }),
            {
                let ghost rb = self.reader;
                let peeked = self.reader.peek();
                match peeked {
                    Err(e) => {
                        proof {
                            assert(j == items.len());
                            rb.lemma_stream_end_at_exhaustion();
                            assert(e == rb.next_failure());
                        }
                        match e {
                            char_reader::Error::EOF(_, _) => {
                                done = true;
                            },
                            other => {
                                proof {
                                    assert(!eof0);
                                    assert(lex1(items, false) is None);
                                    Self::lemma_toks_fail(pre);
                                    assert(other.message_spec() == pre.end_message());
                                }
                                return Err(Error::ReaderError(other.message()));
                            },
                        }
                    },
                    Ok(item) => {
                        proof {
                            assert(item == items[j]);
                        }
                        let special = item.0 == ' ' || item.0 == '\t' || item.0 == '\r' || item.0
                            == '\n' || item.0 == '.' || item.0 == '=' || ((item.0 == '#' || item.0
                            == ';') && item.2 == 1) || (item.0 == '-' && item.2 == 1);
                        if !special {
                            push_char(&mut value, item.0);
                            last_pos = item.2;
                            let again = self.reader.read();
                            proof {
                                assert(again is Ok);
                                assert(self.reader.read_future() =~= items.skip(j + 1));
                                assert(ident_run(items, j) == ident_run(items, j + 1));
                                assert(value@ =~= items.take(j + 1).map_values(
                                    |it: Codepoint| it.0,
                                ));
                                j = j + 1;
                            }
                            if value == arrow {
                                proof {
                                    assert(value@.len() == 2);
                                    assert(j == 2);
                                    assert(value@[0] == '-' && value@[1] == '>');
                                    assert(items[0].0 == '-' && items[1].0 == '>');
                                    let tv = TokenV {
                                        line: line as int,
                                        start: pos as int,
                                        end: items[1].2 as int,
                                        ty: TypeV::Equal,
                                    };
                                    assert(lex1(items, eof0) == Some((tv, 2int)));
                                    Self::lemma_toks_step(pre, *self, tv, 2);
                                }
                                return Ok(Token::new(line, pos, last_pos, Type::Equal));
                            }
                            proof {
                                if j == 2 && items[0].0 == '-' && items[1].0 == '>' {
                                    assert(value@ =~= seq!['-', '>']);
                                    assert(value@ == arrow@);
                                }
                            }
                        } else {
                            done = true;
                            proof {
                                assert(is_special(items[j].0, items[j].2 as int));
                                assert(ident_run(items, j) == j);
                            }
                        }
                    },
                }
            }
            proof {
                if j == 1 && items.len() >= 2 && items[0].0 == '-' && items[1].0 == '>' {
                    assert(!is_special(items[1].0, items[1].2 as int));
                    assert(ident_run(items, 1) == ident_run(items, 2));
                    lemma_ident_run_lower(items, 2);
                    assert(false);
                }
                let tv = TokenV {
                    line: line as int,
                    start: pos as int,
                    end: items[e_run - 1].2 as int,
                    ty: TypeV::Ident(items.take(e_run).map_values(|it: Codepoint| it.0)),
                };
                assert(lex1(items, eof0) == Some((tv, e_run)));
                Self::lemma_toks_step(pre, *self, tv, e_run);
                assert(value@ =~= items.take(e_run).map_values(|it: Codepoint| it.0));
            }
            Ok(Token::new(line, pos, last_pos, Type::Ident(value)))
        }
    }

    /// Computes the next token without consuming it, caching it until `next`
    /// drains it.
    pub fn peek(&mut self) -> (r: &Result<Token, Error>)
        requires
            old(self).wf(),
        ensures
            final(self).wf(),
            final(self).toks() =~~= old(self).toks(),
            final(self).end_message() == old(self).end_message(),
            old(self).toks().len() > 0 ==> (*r matches Ok(t) && t@ == old(self).toks()[0]),
            old(self).toks().len() == 0 ==> (*r matches Err(e) && (e matches Error::ReaderError(m)
                && m@ == old(self).end_message())),
    {
        if self.peeking.is_none() {
            let ghost pre = *self;
            let t = self.next();
            let ghost st1 = *self;
            proof {
                if pre.toks().len() > 0 {
                    match &t {
                        Ok(tok) => {
                            if tok@.ty is EOF {
                                assert(st1.eof_mark(tok@));
                            } else {
                                assert(st1.toks() =~~= pre.toks().drop_first());
                            }
                        },
                        Err(_) => {
                            assert(false);
                        },
                    }
                }
            }
            self.peeking = Some(t);
            proof {
                match &self.peeking {
                    Some(Ok(tok)) => {
                        if tok@.ty is EOF {
                            assert(final(self).toks() == reader_toks(&st1.reader));
                            assert(st1.toks() == reader_toks(&st1.reader));
                            assert(final(self).toks() =~~= pre.toks());
                        } else {
                            assert(pre.toks().len() > 0 && tok@ == pre.toks()[0]);
                            assert(final(self).toks() =~~= seq![tok@] + reader_toks(&st1.reader));
                            assert(reader_toks(&st1.reader) == st1.toks());
                            assert(final(self).toks() =~~= seq![pre.toks()[0]]
                                + pre.toks().drop_first());
                            assert(final(self).toks() =~~= pre.toks());
                        }
                    },
                    Some(Err(e)) => {
                        assert(pre.toks().len() == 0);
                        assert(final(self).toks() =~~= pre.toks());
                    },
                    None => {
                        assert(false);
                    },
                }
            }
        }
        self.peeking.as_ref().unwrap()
    }
}

} // verus!
