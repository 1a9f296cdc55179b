//! The recursive-descent statement parser, with per-line best-effort
//! recovery for lines marked by a leading `-`.

use crate::lexer::Lexer;
use crate::node::Statement;
use crate::path::Path;
use crate::text::trim_spec;
use crate::text::trim_string;
use crate::token::loc_of;
use crate::token::LocV;
use crate::token::Location;
use crate::token::TokenV;
use crate::token::Type;
use crate::token::TypeV;
use core::marker::PhantomData;
use vstd::prelude::*;
use vstd::std_specs::convert::FromSpec;

verus! {

/// Failures the parser reports.
#[derive(Debug)]
pub enum Error {
    /// A grammar violation, with its message and location.
    SyntaxError(String, Location),
    /// A failure of the layers below, rendered as text.
    LexerError(String),
}

/// The message of a rejected line start.
pub open spec fn msg_line_start() -> Seq<char> {
    "a line can start only with a comment, an identifier or the ignore marker"@
}

/// The message of a doubled ignore marker.
pub open spec fn msg_ignore_twice() -> Seq<char> {
    "the ignore marker is set more than once"@
}

/// The message of a failed key.
pub open spec fn msg_key() -> Seq<char> {
    "the key could not be read"@
}

/// The message of a rejected value start.
pub open spec fn msg_value_ident() -> Seq<char> {
    "a value can hold nothing but identifiers"@
}

/// The message of trailing matter after a value.
pub open spec fn msg_after_value() -> Seq<char> {
    "after the value only a line break or the end of input is allowed"@
}

/// The first index at or after `i` of a Return or EOF token, or the length
/// of `ts` when no such token is left.
pub open spec fn line_end(ts: Seq<TokenV>, i: int) -> int
    decreases ts.len() - i,
    when 0 <= i <= ts.len()
{
    if i == ts.len() {
        i
    } else {
        match ts[i].ty {
            TypeV::Return => i,
            TypeV::EOF => i,
            _ => line_end(ts, i + 1),
        }
    }
}

/// The line end never lies before the scan start nor past the stream.
pub proof fn lemma_line_end_bounds(ts: Seq<TokenV>, i: int)
    requires
        0 <= i <= ts.len(),
    ensures
        i <= line_end(ts, i) <= ts.len(),
    decreases ts.len() - i,
{
    if i < ts.len() && !(ts[i].ty is Return) && !(ts[i].ty is EOF) {
        lemma_line_end_bounds(ts, i + 1);
    }
}

/// How reading a key ends: the path fragments and the next token index, a
/// grammar failure (message, location, next index), or a failure of the
/// layers below.
pub enum KeyOut {
    Key(Seq<Seq<char>>, int),
    Syntax(Seq<char>, LocV, int),
    Lex,
}

/// The key phase: identifiers and dots accumulate fragments; a space or
/// equal sign moves to the value phase, whose first dot or identifier ends
/// the key. Anything else fails the key.
pub open spec fn key_loop(ts: Seq<TokenV>, i: int, path: Seq<Seq<char>>, vp: bool) -> KeyOut
    decreases ts.len() - i,
    when 0 <= i <= ts.len()
{
    if i == ts.len() {
        KeyOut::Lex
    } else {
        match ts[i].ty {
            TypeV::Dot => if vp {
                KeyOut::Key(path, i)
            } else {
                key_loop(ts, i + 1, path, vp)
            },
            TypeV::Ident(v) => if vp {
                KeyOut::Key(path, i)
            } else {
                key_loop(ts, i + 1, path.push(v), vp)
            },
            TypeV::Space => key_loop(ts, i + 1, path, true),
            TypeV::Equal => key_loop(ts, i + 1, path, true),
            _ => KeyOut::Syntax(
                msg_key(),
                loc_of(ts[i]),
                if ts[i].ty is EOF {
                    i
                } else {
                    i + 1
                },
            ),
        }
    }
}

/// Reads a key from the head of `ts`, whose first token is an identifier.
pub open spec fn parse_key_spec(ts: Seq<TokenV>) -> KeyOut
    recommends
        ts.len() > 0,
        ts[0].ty is Ident,
{
    match ts[0].ty {
        TypeV::Ident(v) => key_loop(ts, 1, seq![v], false),
        _ => KeyOut::Lex,
    }
}

/// How reading a value ends: the trimmed text and the next token index, a
/// grammar failure, or a failure of the layers below.
pub enum ValOut {
    Val(Seq<char>, int),
    Syntax(Seq<char>, LocV, int),
    Lex,
}

/// The value phase: identifiers, dots and spaces accumulate verbatim until
/// a line break or the end of input; anything else fails the value.
pub open spec fn value_loop(ts: Seq<TokenV>, j: int, acc: Seq<char>) -> ValOut
    decreases ts.len() - j,
    when 0 <= j <= ts.len()
{
    if j == ts.len() {
        ValOut::Lex
    } else {
        match ts[j].ty {
            TypeV::Space => value_loop(ts, j + 1, acc.push(' ')),
            TypeV::Dot => value_loop(ts, j + 1, acc.push('.')),
            TypeV::Ident(v) => value_loop(ts, j + 1, acc + v),
            TypeV::Return => ValOut::Val(trim_spec(acc), j + 1),
            TypeV::EOF => ValOut::Val(trim_spec(acc), j),
            _ => ValOut::Syntax(msg_after_value(), loc_of(ts[j]), j + 1),
        }
    }
}

/// Reads a value starting at token `i`: the first token must be an
/// identifier or a dot.
pub open spec fn parse_value_spec(ts: Seq<TokenV>, i: int) -> ValOut
    recommends
        0 <= i <= ts.len(),
{
    if i == ts.len() {
        ValOut::Lex
    } else {
        match ts[i].ty {
            TypeV::Ident(v) => value_loop(ts, i + 1, v),
            TypeV::Dot => value_loop(ts, i + 1, seq!['.']),
            _ => ValOut::Syntax(
                msg_value_ident(),
                loc_of(ts[i]),
                if ts[i].ty is EOF {
                    i
                } else {
                    i + 1
                },
            ),
        }
    }
}

/// How a whole statement ends: a (path, text) pair and the next index, a
/// silently dropped best-effort line and the next index, a fatal grammar
/// failure, or a failure of the layers below.
pub enum StmtOut {
    Got(Seq<Seq<char>>, Seq<char>, int),
    Dropped(int),
    Syntax(Seq<char>, LocV),
    Lex,
}

/// Best-effort recovery after a failed statement: unless the next token
/// already starts a new line, the rest of the line is discarded.
pub open spec fn recover(ts: Seq<TokenV>) -> StmtOut {
    if ts.len() == 0 {
        StmtOut::Dropped(0)
    } else if ts[0].start != 1 {
        let j = line_end(ts, 0);
        if !(0 <= j < ts.len()) {
            StmtOut::Lex
        } else if ts[j].ty is EOF {
            StmtOut::Dropped(j)
        } else {
            StmtOut::Dropped(j + 1)
        }
    } else {
        StmtOut::Dropped(0)
    }
}

/// Recovery applied to the stream after its first `a` tokens, with the
/// consumed count made absolute again.
pub open spec fn shift_recover(ts: Seq<TokenV>, a: int) -> StmtOut {
    if !(0 <= a <= ts.len()) {
        StmtOut::Lex
    } else {
        match recover(ts.skip(a)) {
            StmtOut::Dropped(n) => StmtOut::Dropped(a + n),
            _ => StmtOut::Lex,
        }
    }
}

/// Reads one statement: a key, then a value. With the ignore flag set, a
/// grammar failure drops the line instead of failing the parse.
pub open spec fn parse_statement_spec(ts: Seq<TokenV>, ig: bool) -> StmtOut
    recommends
        ts.len() > 0,
        ts[0].ty is Ident,
{
    match parse_key_spec(ts) {
        KeyOut::Key(path, i) => if !(0 <= i <= ts.len()) {
            StmtOut::Lex
        } else {
            match parse_value_spec(ts.skip(i), 0) {
                ValOut::Val(text, n) => StmtOut::Got(path, text, i + n),
                ValOut::Syntax(m, l, k) => if ig {
                    shift_recover(ts, i + k)
                } else {
                    StmtOut::Syntax(m, l)
                },
                ValOut::Lex => StmtOut::Lex,
            }
        },
        KeyOut::Syntax(m, l, k) => if ig {
            shift_recover(ts, k)
        } else {
            StmtOut::Syntax(m, l)
        },
        KeyOut::Lex => StmtOut::Lex,
    }
}

/// True when the statement's payload is the conversion of the raw text.
pub open spec fn payload_ok<U: From<String>>(st: Statement<U>, text: Seq<char>) -> bool {
    exists|s: String| s@ == text && st.payload() == U::from_spec(s)
}

/// How a whole parse ends: the ordered (path, raw text) pairs, a grammar
/// failure, or a failure of the layers below.
pub enum ParseOut {
    Done(Seq<(Seq<Seq<char>>, Seq<char>)>),
    Syntax(Seq<char>, LocV),
    Lex,
}

/// The statement grammar over a token stream, line by line: comments and
/// blank space contribute nothing, an ignore marker arms best-effort mode
/// for one statement, and the EOF token ends the parse.
pub open spec fn parse_lines(ts: Seq<TokenV>, ig: bool) -> ParseOut
    decreases ts.len(),
{
    if ts.len() == 0 {
        ParseOut::Lex
    } else {
        match ts[0].ty {
            TypeV::EOF => ParseOut::Done(Seq::empty()),
            TypeV::Ident(_) => match parse_statement_spec(ts, ig) {
                StmtOut::Got(path, text, n) => if 1 <= n <= ts.len() {
                    match parse_lines(ts.skip(n), false) {
                        ParseOut::Done(rest) => ParseOut::Done(seq![(path, text)] + rest),
                        o => o,
                    }
                } else {
                    ParseOut::Lex
                },
                StmtOut::Dropped(n) => if 1 <= n <= ts.len() {
                    parse_lines(ts.skip(n), false)
                } else {
                    ParseOut::Lex
                },
                StmtOut::Syntax(m, l) => ParseOut::Syntax(m, l),
                StmtOut::Lex => ParseOut::Lex,
            },
            TypeV::Ignore => if ig {
                ParseOut::Syntax(msg_ignore_twice(), loc_of(ts[0]))
            } else {
                parse_lines(ts.drop_first(), true)
            },
            TypeV::Comment => {
                let j = line_end(ts, 0);
                if !(0 <= j < ts.len()) {
                    ParseOut::Lex
                } else if ts[j].ty is EOF {
                    ParseOut::Done(Seq::empty())
                } else {
                    parse_lines(ts.skip(j + 1), false)
                }
            },
            TypeV::Space => parse_lines(ts.drop_first(), ig),
            TypeV::Return => parse_lines(ts.drop_first(), false),
            _ => ParseOut::Syntax(msg_line_start(), loc_of(ts[0])),
        }
    }
}

/// Exhaustion law: a token stream standing at the EOF token parses to the
/// empty statement sequence, never to an error. Together with `parse`,
/// which on success leaves its parser at the EOF token, this says that a
/// second `parse` on an exhausted parser returns an empty sequence.
pub proof fn lemma_parse_exhausted(ts: Seq<TokenV>, ig: bool)
    requires
        ts.len() > 0,
        ts[0].ty is EOF,
    ensures
        parse_lines(ts, ig) == ParseOut::Done(Seq::<(Seq<Seq<char>>, Seq<char>)>::empty()),
{
}

/// Consumes the lexer fully and yields the ordered statements of the
/// grammar, converting each raw value text into the payload type `U`.
pub struct Parser<U: From<String>> {
    lexer: Lexer,
    ignore: bool,
    _marker: PhantomData<U>,
}

impl<U: From<String>> Parser<U> {
    /// Internal soundness of the layers below.
    pub closed spec fn wf(&self) -> bool {
        self.lexer.wf()
    }

    /// The tokens still to come, ending in the EOF token when the input
    /// ends cleanly.
    pub closed spec fn toks(&self) -> Seq<TokenV> {
        self.lexer.toks()
    }

    /// Whether a best-effort marker is armed for the next statement.
    pub closed spec fn ignore_flag(&self) -> bool {
        self.ignore
    }

    /// The message of the failure that cuts the token stream short, when it
    /// does not end in the EOF token.
    pub closed spec fn end_message(&self) -> Seq<char> {
        self.lexer.end_message()
    }

    /// A parser over `bytes`.
    pub fn new(bytes: Vec<u8>) -> (r: Self)
        requires
            bytes@.len() < usize::MAX,
        ensures
            r.wf(),
            r.toks() == crate::lexer::tokens_of(bytes@),
            r.ignore_flag() == false,
            r.end_message() == crate::char_reader::end_failure(bytes@, 0, 1, 0).message_spec(),
    {
        Parser { lexer: Lexer::new(bytes), ignore: false, _marker: PhantomData }
    }

    /// Discards tokens through the next line break; at the end of input the
    /// EOF token stays put.
    fn read_until_line_end(&mut self) -> (r: Result<(), Error>)
        requires
            old(self).wf(),
        ensures
            final(self).wf(),
            ({
                let ts = old(self).toks();
                let j = line_end(ts, 0);
                if 0 <= j < ts.len() {
                    &&& r is Ok
                    &&& final(self).ignore_flag() == false
                    &&& final(self).end_message() == old(self).end_message()
                    &&& (ts[j].ty is EOF ==> final(self).toks() =~~= ts.skip(j))
                    &&& (!(ts[j].ty is EOF) ==> final(self).toks() =~~= ts.skip(j + 1))
                } else {
                    r matches Err(e) && (e matches Error::LexerError(m) && m@ == old(
                        self,
                    ).end_message())
                }
            }),
    {
        let ghost ts = old(self).toks();
        let ghost j = line_end(ts, 0);
        let ghost mut i: int = 0;
        let mut done = false;
        while !done
            invariant
                self.lexer.wf(),
                ts == old(self).toks(),
                j == line_end(ts, 0),
                0 <= i <= ts.len(),
                self.lexer.end_message() == old(self).end_message(),
                !done ==> self.lexer.toks() =~~= ts.skip(i),
                !done ==> line_end(ts, i) == j,
                done ==> 0 <= j < ts.len(),
                done ==> (ts[j].ty is EOF ==> self.lexer.toks() =~~= ts.skip(j)),
                done ==> (!(ts[j].ty is EOF) ==> self.lexer.toks() =~~= ts.skip(j + 1)),
            decreases ts.len() - i + (if done {
                0int
            } else {
                1int
            }),
        {
            let t = self.lexer.next();
            match t {
                Err(e) => {
                    proof {
                        assert(ts.skip(i).len() == 0);
                        assert(i == ts.len());
                        assert(j == ts.len());
                    }
                    match e {
                        crate::lexer::Error::ReaderError(m) => {
                            return Err(Error::LexerError(m));
                        },
                        crate::lexer::Error::EOF => {
                            proof {
                                assert(false);
                            }
                            return Err(Error::LexerError(String::new()));
                        },
                    }
                },
                Ok(tok) => {
                    proof {
                        assert(ts.skip(i).len() > 0);
                        assert(tok@ == ts[i as int]);
                    }
                    match tok.ty {
                        Type::Return => {
                            proof {
                                assert(ts.skip(i).drop_first() =~= ts.skip(i + 1));
                                assert(j == i);
                            }
                            done = true;
                        },
                        Type::EOF => {
                            proof {
                                assert(j == i);
                            }
                            done = true;
                        },
                        _ => {
                            proof {
                                assert(ts.skip(i).drop_first() =~= ts.skip(i + 1));
                                assert(line_end(ts, i) == line_end(ts, i + 1));
                                i = i + 1;
                            }
                        },
                    }
                },
            }
        }
        self.ignore = false;
        Ok(())
    }

    /// Reads a dotted key: identifiers separated by dots, ended by the
    /// value phase that a space or equal sign opens.
    fn parse_key(&mut self) -> (r: Result<Path, Error>)
        requires
            old(self).wf(),
            old(self).toks().len() > 0,
            old(self).toks()[0].ty is Ident,
        ensures
            final(self).wf(),
            ({
                let ts = old(self).toks();
                match parse_key_spec(ts) {
                    KeyOut::Key(path, i) => {
                        &&& r matches Ok(p) && p@ == path
                        &&& 1 <= i <= ts.len()
                        &&& final(self).toks() =~~= ts.skip(i)
                        &&& final(self).end_message() == old(self).end_message()
                        &&& final(self).ignore_flag() == old(self).ignore_flag()
                    },
                    KeyOut::Syntax(m, l, k) => {
                        &&& r matches Err(e) && (e matches Error::SyntaxError(ms, loc) && ms@ == m
                            && loc@ == l)
                        &&& 1 <= k <= ts.len()
                        &&& final(self).toks() =~~= ts.skip(k)
                        &&& final(self).end_message() == old(self).end_message()
                        &&& final(self).ignore_flag() == old(self).ignore_flag()
                    },
                    KeyOut::Lex => r matches Err(e) && (e matches Error::LexerError(m) && m@ == old(
                        self,
                    ).end_message()),
                }
            }),
    {
        let ghost ts = old(self).toks();
        let first = self.lexer.next();
        let mut path = Path::new();
        match first {
            Ok(t) => match t.ty {
                Type::Ident(v) => {
                    path.push(v);
                },
                _ => {
                    proof {
                        assert(false);
                    }
                    return Err(Error::LexerError(String::new()));
                },
            },
            Err(_) => {
                proof {
                    assert(false);
                }
                return Err(Error::LexerError(String::new()));
            },
        }
        proof {
            assert(ts.drop_first() =~= ts.skip(1));
        }
        let mut value_phase = false;
        let ghost mut i: int = 1;
        let mut done = false;
        while !done
            invariant
                self.lexer.wf(),
                self.ignore == old(self).ignore_flag(),
                ts == old(self).toks(),
                ts.len() > 0,
                1 <= i <= ts.len(),
                self.lexer.toks() =~~= ts.skip(i),
                self.lexer.end_message() == old(self).end_message(),
                key_loop(ts, i, path@, value_phase) == parse_key_spec(ts),
                done ==> parse_key_spec(ts) == KeyOut::Key(path@, i),
            decreases ts.len() - i + (if done {
                0int
            } else {
                1int
            }),
        {
            let peeked = self.lexer.peek();
            match peeked {
                Err(e) => {
                    proof {
                        assert(ts.skip(i).len() == 0);
                        assert(i == ts.len());
                    }
                    match e {
                        crate::lexer::Error::ReaderError(m) => {
                            return Err(Error::LexerError(String::from_str(m.as_str())));
                        },
                        crate::lexer::Error::EOF => {
                            proof {
                                assert(false);
                            }
                            return Err(Error::LexerError(String::new()));
                        },
                    }
                },
                Ok(t) => {
                    proof {
                        assert(t@ == ts[i as int]);
                    }
                    match &t.ty {
                        Type::Dot => {
                            if value_phase {
                                done = true;
                            } else {
                                let c = self.lexer.next();
                                proof {
                                    assert(ts.skip(i).drop_first() =~= ts.skip(i + 1));
                                    i = i + 1;
                                }
                            }
                        },
                        Type::Ident(_) => {
                            if value_phase {
                                done = true;
                            } else {
                                let c = self.lexer.next();
                                match c {
                                    Ok(ct) => match ct.ty {
                                        Type::Ident(v) => {
                                            proof {
                                                assert(ts.skip(i).drop_first() =~= ts.skip(i + 1));
                                            }
                                            path.push(v);
                                            proof {
                                                i = i + 1;
                                            }
                                        },
                                        _ => {
                                            proof {
                                                assert(false);
                                            }
                                            return Err(Error::LexerError(String::new()));
                                        },
                                    },
                                    Err(_) => {
                                        proof {
                                            assert(false);
                                        }
                                        return Err(Error::LexerError(String::new()));
                                    },
                                }
                            }
                        },
                        Type::Space | Type::Equal => {
                            let c = self.lexer.next();
                            value_phase = true;
                            proof {
                                assert(ts.skip(i).drop_first() =~= ts.skip(i + 1));
                                i = i + 1;
                            }
                        },
                        _ => {
                            let c = self.lexer.next();
                            match c {
                                Ok(ct) => {
                                    proof {
                                        assert(ct@ == ts[i as int]);
                                        if !(ct.ty is EOF) {
                                            assert(ts.skip(i).drop_first() =~= ts.skip(i + 1));
                                        }
                                        assert(ct.loc@ == loc_of(ts[i as int]));
                                    }
                                    return Err(
                                        Error::SyntaxError(
                                            String::from_str("the key could not be read"),
                                            ct.loc,
                                        ),
                                    );
                                },
                                Err(_) => {
                                    proof {
                                        assert(false);
                                    }
                                    return Err(Error::LexerError(String::new()));
                                },
                            }
                        },
                    }
                },
            }
        }
        Ok(path)
    }

    /// Reads a value: identifiers, dots and spaces accumulated verbatim up
    /// to the line break or end of input, trimmed, and converted to `U`.
    fn parse_value(&mut self) -> (r: Result<U, Error>)
        requires
            old(self).wf(),
        ensures
            final(self).wf(),
            ({
                let ts = old(self).toks();
                match parse_value_spec(ts, 0) {
                    ValOut::Val(text, n) => {
                        &&& r matches Ok(u) && (U::obeys_from_spec() ==> exists|s: String|
                            s@ == text && u == U::from_spec(s))
                        &&& 0 <= n <= ts.len()
                        &&& final(self).toks() =~~= ts.skip(n)
                        &&& final(self).end_message() == old(self).end_message()
                        &&& final(self).ignore_flag() == false
                    },
                    ValOut::Syntax(m, l, k) => {
                        &&& r matches Err(e) && (e matches Error::SyntaxError(ms, loc) && ms@ == m
                            && loc@ == l)
                        &&& 0 <= k <= ts.len()
                        &&& final(self).toks() =~~= ts.skip(k)
                        &&& final(self).end_message() == old(self).end_message()
                        &&& final(self).ignore_flag() == old(self).ignore_flag()
                    },
                    ValOut::Lex => r matches Err(e) && (e matches Error::LexerError(m) && m@ == old(
                        self,
                    ).end_message()),
                }
            }),
    {
        let ghost ts = old(self).toks();
        let first = self.lexer.next();
        let mut total_value: String;
        match first {
            Ok(t) => match t.ty {
                Type::Ident(v) => {
                    total_value = v;
                },
                Type::Dot => {
                    total_value = String::from_str(".");
                    proof {
                        reveal_strlit(".");
                        assert(total_value@ =~= seq!['.']);
                    }
                },
                _ => {
                    proof {
                        assert(t@ == ts[0]);
                        if !(t.ty is EOF) {
                            assert(ts.drop_first() =~= ts.skip(1));
                        }
                        assert(t.loc@ == loc_of(ts[0]));
                    }
                    return Err(
                        Error::SyntaxError(
                            String::from_str("a value can hold nothing but identifiers"),
                            t.loc,
                        ),
                    );
                },
            },
            Err(e) => match e {
                crate::lexer::Error::ReaderError(m) => {
                    return Err(Error::LexerError(m));
                },
                crate::lexer::Error::EOF => {
                    proof {
                        assert(false);
                    }
                    return Err(Error::LexerError(String::new()));
                },
            },
        }
        proof {
            assert(ts.drop_first() =~= ts.skip(1));
        }
        let ghost mut j: int = 1;
        loop
            invariant
                self.lexer.wf(),
                ts == old(self).toks(),
                ts.len() > 0,
                1 <= j <= ts.len(),
                self.lexer.toks() =~~= ts.skip(j),
                self.lexer.end_message() == old(self).end_message(),
                self.ignore == old(self).ignore_flag(),
                value_loop(ts, j, total_value@) == parse_value_spec(ts, 0),
            decreases ts.len() - j,
        {
            let t = self.lexer.next();
            match t {
                Err(e) => {
                    proof {
                        assert(ts.skip(j).len() == 0);
                        assert(j == ts.len());
                    }
                    match e {
                        crate::lexer::Error::ReaderError(m) => {
                            return Err(Error::LexerError(m));
                        },
                        crate::lexer::Error::EOF => {
                            proof {
                                assert(false);
                            }
                            return Err(Error::LexerError(String::new()));
                        },
                    }
                },
                Ok(tok) => {
                    proof {
                        assert(tok@ == ts[j as int]);
                    }
                    match tok.ty {
                        Type::Space => {
                            crate::text::push_char(&mut total_value, ' ');
                            proof {
                                assert(ts.skip(j).drop_first() =~= ts.skip(j + 1));
                                j = j + 1;
                            }
                        },
                        Type::Dot => {
                            crate::text::push_char(&mut total_value, '.');
                            proof {
                                assert(ts.skip(j).drop_first() =~= ts.skip(j + 1));
                                j = j + 1;
                            }
                        },
                        Type::Ident(v) => {
                            total_value.append(v.as_str());
                            proof {
                                assert(ts.skip(j).drop_first() =~= ts.skip(j + 1));
                                j = j + 1;
                            }
                        },
                        Type::Return => {
                            self.ignore = false;
                            let trimmed = trim_string(&total_value);
                            let ghost tr = trimmed@;
                            let u = U::from(trimmed);
                            proof {
                                assert(ts.skip(j).drop_first() =~= ts.skip(j + 1));
                                assert(parse_value_spec(ts, 0) == ValOut::Val(tr, j + 1));
                            }
                            return Ok(u);
                        },
                        Type::EOF => {
                            self.ignore = false;
                            let trimmed = trim_string(&total_value);
                            let ghost tr = trimmed@;
                            let u = U::from(trimmed);
                            proof {
                                assert(parse_value_spec(ts, 0) == ValOut::Val(tr, j as int));
                            }
                            return Ok(u);
                        },
                        _ => {
                            proof {
                                assert(ts.skip(j).drop_first() =~= ts.skip(j + 1));
                                assert(tok.loc@ == loc_of(ts[j as int]));
                            }
                            return Err(
                                Error::SyntaxError(
                                    String::from_str(
                                        "after the value only a line break or the end of input is allowed",
                                    ),
                                    tok.loc,
                                ),
                            );
                        },
                    }
                },
            }
        }
    }

    /// Reads one full statement. When the best-effort flag is armed, a
    /// grammar failure silently drops the line instead of failing.
    fn parse_statement(&mut self) -> (r: Result<Option<Statement<U>>, Error>)
        requires
            old(self).wf(),
            old(self).toks().len() > 0,
            old(self).toks()[0].ty is Ident,
        ensures
            final(self).wf(),
            ({
                let ts = old(self).toks();
                match parse_statement_spec(ts, old(self).ignore_flag()) {
                    StmtOut::Got(path, text, n) => {
                        &&& r matches Ok(o) && (o matches Some(st) && st.path_view() == path && (
                        U::obeys_from_spec() ==> exists|s: String|
                            s@ == text && st.payload() == U::from_spec(s)))
                        &&& 1 <= n <= ts.len()
                        &&& final(self).toks() =~~= ts.skip(n)
                        &&& final(self).end_message() == old(self).end_message()
                        &&& final(self).ignore_flag() == false
                    },
                    StmtOut::Dropped(n) => {
                        &&& r matches Ok(o) && o is None
                        &&& 1 <= n <= ts.len()
                        &&& final(self).toks() =~~= ts.skip(n)
                        &&& final(self).end_message() == old(self).end_message()
                        &&& final(self).ignore_flag() == false
                    },
                    StmtOut::Syntax(m, l) => r matches Err(e) && (e matches Error::SyntaxError(
                        ms,
                        loc,
                    ) && ms@ == m && loc@ == l),
                    StmtOut::Lex => r matches Err(e) && (e matches Error::LexerError(m) && m@
                        == old(self).end_message()),
                }
            }),
    {
        let ghost ts = old(self).toks();
        let key_result = self.parse_key();
        let path = match key_result {
            Ok(p) => p,
            Err(e) => match e {
                Error::SyntaxError(s, l) => {
                    if self.ignore {
                        let ghost at_fail = self.toks();
                        let r = self.recover_line();
                        proof {
                            match parse_key_spec(ts) {
                                KeyOut::Syntax(m0, l0, k) => {
                                    assert(at_fail == ts.skip(k));
                                    match recover(ts.skip(k)) {
                                        StmtOut::Dropped(n) => {
                                            assert(ts.skip(k).skip(n) =~~= ts.skip(k + n));
                                        },
                                        _ => {},
                                    }
                                },
                                _ => {},
                            }
                        }
                        match r {
                            Ok(_) => {
                                return Ok(None);
                            },
                            Err(e2) => {
                                return Err(e2);
                            },
                        }
                    } else {
                        return Err(Error::SyntaxError(s, l));
                    }
                },
                other => {
                    return Err(other);
                },
            },
        };
        let ghost mid = self.toks();
        let value_result = self.parse_value();
        match value_result {
            Ok(value) => {
                proof {
                    match parse_key_spec(ts) {
                        KeyOut::Key(p0, i) => {
                            assert(mid == ts.skip(i));
                            match parse_value_spec(mid, 0) {
                                ValOut::Val(text, n) => {
                                    assert(mid.skip(n) =~~= ts.skip(i + n));
                                },
                                _ => {},
                            }
                        },
                        _ => {},
                    }
                }
                Ok(Some(Statement::new(path, value)))
            },
            Err(e) => match e {
                Error::SyntaxError(s, l) => {
                    if self.ignore {
                        let ghost at_fail = self.toks();
                        let r = self.recover_line();
                        proof {
                            match parse_key_spec(ts) {
                                KeyOut::Key(p0, i) => {
                                    match parse_value_spec(mid, 0) {
                                        ValOut::Syntax(m0, l0, k) => {
                                            assert(at_fail == mid.skip(k));
                                            assert(mid.skip(k) =~~= ts.skip(i + k));
                                            match recover(ts.skip(i + k)) {
                                                StmtOut::Dropped(n) => {
                                                    assert(ts.skip(i + k).skip(n) =~~= ts.skip(
                                                        i + k + n,
                                                    ));
                                                },
                                                _ => {},
                                            }
                                        },
                                        _ => {},
                                    }
                                },
                                _ => {},
                            }
                        }
                        match r {
                            Ok(_) => {
                                return Ok(None);
                            },
                            Err(e2) => {
                                return Err(e2);
                            },
                        }
                    } else {
                        return Err(Error::SyntaxError(s, l));
                    }
                },
                other => {
                    return Err(other);
                },
            },
        }
    }

    /// The recovery of a best-effort line: unless the next token already
    /// starts a new line, the rest of the line is discarded.
    fn recover_line(&mut self) -> (r: Result<(), Error>)
        requires
            old(self).wf(),
        ensures
            final(self).wf(),
            ({
                let ts = old(self).toks();
                match recover(ts) {
                    StmtOut::Dropped(n) => {
                        &&& r is Ok
                        &&& 0 <= n <= ts.len()
                        &&& final(self).toks() =~~= ts.skip(n)
                        &&& final(self).end_message() == old(self).end_message()
                        &&& final(self).ignore_flag() == false
                    },
                    StmtOut::Lex => r matches Err(e) && (e matches Error::LexerError(m) && m@
                        == old(self).end_message()),
                    _ => false,
                }
            }),
    {
        let ghost ts = old(self).toks();
        let peeked = self.lexer.peek();
        let skip_line = match peeked {
            Ok(t) => t.loc.start != 1,
            Err(_) => false,
        };
        proof {
            if ts.len() == 0 {
                assert(recover(ts) == StmtOut::Dropped(0int));
            }
        }
        if skip_line {
            let r = self.read_until_line_end();
            match r {
                Ok(_) => {},
                Err(e) => {
                    return Err(e);
                },
            }
        }
        self.ignore = false;
        proof {
            assert(ts.skip(0) =~~= ts);
        }
        Ok(())
    }

    /// Consumes the lexer fully and returns the ordered statements. A
    /// second call on an exhausted parser returns an empty sequence.
    pub fn parse(&mut self) -> (r: Result<Vec<Statement<U>>, Error>)
        requires
            old(self).wf(),
        ensures
            final(self).wf(),
            parse_lines(old(self).toks(), old(self).ignore_flag()) matches ParseOut::Done(list)
                ==> (r matches Ok(v) && v@.len() == list.len() && (forall|q: int|
                0 <= q < list.len() ==> (#[trigger] v@[q]).path_view() == list[q].0)),
            parse_lines(old(self).toks(), old(self).ignore_flag()) matches ParseOut::Done(list)
                ==> (r matches Ok(v) && (U::obeys_from_spec() ==> (forall|q: int|
                0 <= q < list.len() ==> #[trigger] payload_ok(v@[q], list[q].1)))),
            parse_lines(old(self).toks(), old(self).ignore_flag()) is Done
                ==> final(self).toks().len() > 0 && final(self).toks()[0].ty is EOF
                && final(self).ignore_flag() == false,
            parse_lines(old(self).toks(), old(self).ignore_flag()) matches ParseOut::Syntax(m, l)
                ==> (r matches Err(e) && (e matches Error::SyntaxError(ms, loc) && ms@ == m && loc@
                == l)),
            parse_lines(old(self).toks(), old(self).ignore_flag()) is Lex ==> (r matches Err(e) && (
            e matches Error::LexerError(m) && m@ == old(self).end_message())),
    {
        let ghost ts0 = old(self).toks();
        let ghost ig0 = old(self).ignore_flag();
        let mut statements: Vec<Statement<U>> = Vec::new();
        let ghost mut collected: Seq<(Seq<Seq<char>>, Seq<char>)> = Seq::empty();
        let mut at_eof = false;
        while !at_eof
            invariant
                ts0 == old(self).toks(),
                ig0 == old(self).ignore_flag(),
                self.lexer.wf(),
                self.lexer.end_message() == old(self).end_message(),
                statements@.len() == collected.len(),
                forall|q: int|
                    0 <= q < collected.len() ==> (#[trigger] statements@[q]).path_view()
                        == collected[q].0,
                U::obeys_from_spec() ==> (forall|q: int|
                    0 <= q < collected.len() ==> #[trigger] payload_ok(
                        statements@[q],
                        collected[q].1,
                    )),
                ({
                    let total = parse_lines(ts0, ig0);
                    match parse_lines(self.toks(), self.ignore_flag()) {
                        ParseOut::Done(rest) => total == ParseOut::Done(collected + rest),
                        o => total == o,
                    }
                }),
                at_eof ==> self.toks().len() > 0 && self.toks()[0].ty is EOF
                    && self.ignore_flag() == false,
            decreases self.toks().len() + (if at_eof {
                0int
            } else {
                1int
            }),
        {
            let ghost cur = self.toks();
            let ghost igc = self.ignore_flag();
            let peeked = self.lexer.peek();
            match peeked {
                Err(e) => {
                    proof {
                        assert(cur.len() == 0);
                    }
                    match e {
                        crate::lexer::Error::ReaderError(m) => {
                            return Err(Error::LexerError(String::from_str(m.as_str())));
                        },
                        crate::lexer::Error::EOF => {
                            proof {
                                assert(false);
                            }
                            return Err(Error::LexerError(String::new()));
                        },
                    }
                },
                Ok(t) => {
                    proof {
                        assert(t@ == cur[0]);
                    }
                    match &t.ty {
                        Type::EOF => {
                            at_eof = true;
                            self.ignore = false;
                        },
                        Type::Ident(_) => {
                            let sr = self.parse_statement();
                            match sr {
                                Ok(Some(st)) => {
                                    let ghost cold = collected;
                                    let ghost sold = statements@;
                                    proof {
                                        assert(parse_statement_spec(cur, igc) is Got);
                                        match parse_statement_spec(cur, igc) {
                                            StmtOut::Got(pp, tt, n) => {
                                                collected = collected.push((pp, tt));
                                                if U::obeys_from_spec() {
                                                    assert(payload_ok(st, tt));
                                                }
                                            },
                                            _ => {},
                                        }
                                    }
                                    statements.push(st);
                                    proof {
                                        match parse_statement_spec(cur, igc) {
                                            StmtOut::Got(pp, tt, n) => {
                                                match parse_lines(cur.skip(n), false) {
                                                    ParseOut::Done(rest2) => {
                                                        assert((cold + (seq![(pp, tt)] + rest2))
                                                            =~~= (collected + rest2));
                                                    },
                                                    _ => {},
                                                }
                                                assert(statements@ == sold.push(st));
                                                assert(forall|q: int|
                                                    0 <= q < cold.len() ==> #[trigger] statements@[q]
                                                        == sold[q] && collected[q] == cold[q]);
                                                if U::obeys_from_spec() {
                                                    assert forall|q: int|
                                                        0 <= q < collected.len() implies #[trigger] payload_ok(
                                                        statements@[q],
                                                        collected[q].1,
                                                    ) by {
                                                        if q < cold.len() {
                                                            assert(payload_ok(sold[q], cold[q].1));
                                                        } else {
                                                            assert(payload_ok(st, tt));
                                                        }
                                                    }
                                                }
                                            },
                                            _ => {},
                                        }
                                    }
                                },
                                Ok(None) => {
                                },
                                Err(e) => {
                                    return Err(e);
                                },
                            }
                        },
                        Type::Ignore => {
                            if self.ignore {
                                let loc = t.loc;
                                return Err(
                                    Error::SyntaxError(
                                        String::from_str(
                                            "the ignore marker is set more than once",
                                        ),
                                        loc,
                                    ),
                                );
                            } else {
                                self.ignore = true;
                                let c = self.lexer.next();
                                proof {
                                    assert(cur.drop_first() =~= cur.skip(1));
                                }
                            }
                        },
                        Type::Comment => {
                            let rr = self.read_until_line_end();
                            proof {
                                lemma_line_end_bounds(cur, 0);
                            }
                            match rr {
                                Ok(_) => {},
                                Err(e) => {
                                    return Err(e);
                                },
                            }
                        },
                        Type::Space => {
                            let c = self.lexer.next();
                            proof {
                                assert(cur.drop_first() =~= cur.skip(1));
                            }
                        },
                        Type::Return => {
                            self.ignore = false;
                            let c = self.lexer.next();
                            proof {
                                assert(cur.drop_first() =~= cur.skip(1));
                            }
                        },
                        _ => {
                            let loc = t.loc;
                            return Err(
                                Error::SyntaxError(
                                    String::from_str(
                                        "a line can start only with a comment, an identifier or the ignore marker",
                                    ),
                                    loc,
                                ),
                            );
                        },
                    }
                },
            }
        }
        proof {
            assert(collected + Seq::<(Seq<Seq<char>>, Seq<char>)>::empty() =~~= collected);
            if U::obeys_from_spec() {
                match parse_lines(ts0, ig0) {
                    ParseOut::Done(list) => {
                        assert(list == collected);
                        assert forall|q: int| 0 <= q < list.len() implies #[trigger] payload_ok(
                            statements@[q],
                            list[q].1,
                        ) by {
                            assert(payload_ok(statements@[q], collected[q].1));
                        }
                    },
                    _ => {},
                }
            }
        }
        Ok(statements)
    }
}

} // verus!
