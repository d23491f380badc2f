//! The lexer: a cursor over a borrowed byte buffer that hands out one token per pull.

use vstd::prelude::*;

use vstd::utf8::{decode_utf8, encode_utf8_decode_utf8, valid_utf8};

use crate::decode::string_from_utf8;
use crate::scan::{
    is_ws_byte, lemma_quoted_end, lemma_step, lemma_word_end, next_decodable, pass_decodable,
    quoted_end, step, tokens_from, word_end, ws_end, QUOTE,
};

verus! {

/// A single-pass tokenizer over a borrowed buffer.
pub struct Lexer<'a> {
    src: &'a [u8],
    pos: usize,
}

impl<'a> Lexer<'a> {
    /// The buffer the lexer reads.
    pub closed spec fn source(&self) -> Seq<u8> {
        self.src@
    }

    /// The lexer's read offset into its buffer.
    pub closed spec fn cursor(&self) -> int {
        self.pos as int
    }

    /// The cursor never runs past the end of the buffer.
    pub open spec fn wf(&self) -> bool {
        0 <= self.cursor() <= self.source().len()
    }

    /// A lexer at the start of `src`.
    pub fn new(src: &'a [u8]) -> (r: Lexer<'a>)
        ensures
            r.source() == src@,
            r.cursor() == 0,
            r.wf(),
    {
        Lexer { src: src, pos: 0 }
    }

    /// Whether `ch` is one of the four whitespace bytes.
    fn is_ws(ch: u8) -> (r: bool)
        ensures
            r == is_ws_byte(ch),
    {
        match ch {
            0x20 => true,
            0x0d => true,
            0x0a => true,
            0x09 => true,
            _ => false,
        }
    }

    /// Whether the cursor has reached the end of the buffer.
    pub fn eof(&self) -> (r: bool)
        ensures
            r == (self.cursor() >= self.source().len()),
    {
        self.pos >= self.src.len()
    }

    /// The byte under the cursor, if any.
    fn ch(&self) -> (r: Option<u8>)
        ensures
            r == (if self.cursor() < self.source().len() {
                Some(self.source()[self.cursor()])
            } else {
                None
            }),
    {
        if self.eof() {
            None
        } else {
            Some(self.src[self.pos])
        }
    }

    /// Decodes a token's bytes; an empty span is no token.
    fn finish(tok: Vec<u8>) -> (r: Option<String>)
        requires
            valid_utf8(tok@),
        ensures
            r is Some <==> tok@.len() > 0,
            r matches Some(s) ==> s@ == decode_utf8(tok@),
    {
        if tok.len() == 0 {
            None
        } else {
            match string_from_utf8(tok) {
                Some(s) => {
                    proof {
                        encode_utf8_decode_utf8(s@);
                    }
                    Some(s)
                },
                None => None,
            }
        }
    }

    /// Reads an unquoted token: the bytes up to the next whitespace, quote or end.
    fn string(&mut self) -> (r: Option<String>)
        requires
            old(self).wf(),
            valid_utf8(
                old(self).source().subrange(
                    old(self).cursor(),
                    word_end(old(self).source(), old(self).cursor()),
                ),
            ),
        ensures
            final(self).source() == old(self).source(),
            final(self).cursor() == word_end(old(self).source(), old(self).cursor()),
            final(self).wf(),
            r is Some <==> final(self).cursor() > old(self).cursor(),
            r matches Some(s) ==> s@ == decode_utf8(
                old(self).source().subrange(old(self).cursor(), final(self).cursor()),
            ),
    {
        let ghost src = self.src@;
        let start = self.pos;
        proof {
            lemma_word_end(src, start as int);
        }
        let mut tok: Vec<u8> = Vec::new();
        loop
            invariant
                self.src@ == src,
                self.pos <= self.src.len(),
                start <= self.pos,
                word_end(src, self.pos as int) == word_end(src, start as int),
                word_end(src, start as int) <= src.len(),
                tok@ == src.subrange(start as int, self.pos as int),
            ensures
                self.src@ == src,
                self.pos == word_end(src, start as int),
                tok@ == src.subrange(start as int, self.pos as int),
            decreases src.len() - self.pos,
        {
            match self.ch() {
                Some(c) => {
                    if Lexer::is_ws(c) || c == QUOTE {
                        break;
                    }
                    tok.push(c);
                    self.pos += 1;
                    assert(tok@ =~= src.subrange(start as int, self.pos as int));
                },
                None => break,
            }
        }
        Lexer::finish(tok)
    }

    /// Reads a quoted token: skips the opening quote, takes the bytes up to the
    /// next quote or the end, and consumes the closing quote if there is one.
    fn quoted_string(&mut self) -> (r: Option<String>)
        requires
            old(self).wf(),
            old(self).cursor() < old(self).source().len(),
            valid_utf8(
                old(self).source().subrange(
                    old(self).cursor() + 1,
                    quoted_end(old(self).source(), old(self).cursor() + 1),
                ),
            ),
        ensures
            ({
                let src = old(self).source();
                let e = quoted_end(src, old(self).cursor() + 1);
                &&& final(self).source() == src
                &&& final(self).cursor() == if e < src.len() {
                    e + 1
                } else {
                    e
                }
                &&& r is Some <==> e > old(self).cursor() + 1
                &&& r matches Some(s) ==> s@ == decode_utf8(
                    src.subrange(old(self).cursor() + 1, e),
                )
            }),
            final(self).wf(),
    {
        let ghost src = self.src@;
        assert(self.pos < self.src.len());
        self.pos += 1;
        let start = self.pos;
        proof {
            lemma_quoted_end(src, start as int);
        }
        let mut tok: Vec<u8> = Vec::new();
        loop
            invariant_except_break
                start <= self.pos,
                self.pos <= self.src.len(),
                quoted_end(src, self.pos as int) == quoted_end(src, start as int),
                tok@ == src.subrange(start as int, self.pos as int),
            invariant
                self.src@ == src,
                quoted_end(src, start as int) <= src.len(),
            ensures
                self.src@ == src,
                tok@ == src.subrange(start as int, quoted_end(src, start as int)),
                self.pos == if quoted_end(src, start as int) < src.len() {
                    quoted_end(src, start as int) + 1
                } else {
                    quoted_end(src, start as int)
                },
            decreases src.len() - self.pos,
        {
            match self.ch() {
                Some(c) => {
                    if c == QUOTE {
                        self.pos += 1;
                        break;
                    }
                    tok.push(c);
                    self.pos += 1;
                    assert(tok@ =~= src.subrange(start as int, self.pos as int));
                },
                None => break,
            }
        }
        Lexer::finish(tok)
    }

    /// Moves the cursor past any whitespace; returns how many bytes it skipped.
    fn skip_ws(&mut self) -> (r: usize)
        requires
            old(self).wf(),
        ensures
            final(self).source() == old(self).source(),
            final(self).cursor() == ws_end(old(self).source(), old(self).cursor()),
            final(self).wf(),
            r == final(self).cursor() - old(self).cursor(),
    {
        let ghost src = self.src@;
        let prev_pos = self.pos;
        while self.valid_ws()
            invariant
                self.src@ == src,
                prev_pos <= self.pos <= self.src.len(),
                ws_end(src, self.pos as int) == ws_end(src, prev_pos as int),
            decreases src.len() - self.pos,
        {
            self.pos += 1;
        }
        self.pos - prev_pos
    }

    /// Whether the byte under the cursor is whitespace.
    pub fn valid_ws(&self) -> (r: bool)
        ensures
            r == (self.cursor() < self.source().len() && is_ws_byte(
                self.source()[self.cursor()],
            )),
    {
        match self.ch() {
            Some(c) => Lexer::is_ws(c),
            None => false,
        }
    }

    /// Hands out the next token, or `None` when there is none at the cursor.
    ///
    /// `None` comes when only whitespace is left, and also for an empty quoted
    /// span `""`. A call never moves the cursor back, and moves it forward
    /// whenever the buffer is not used up.
    pub fn next(&mut self) -> (r: Option<String>)
        requires
            old(self).wf(),
            next_decodable(old(self).source(), old(self).cursor()),
        ensures
            final(self).wf(),
            final(self).source() == old(self).source(),
            final(self).cursor() == step(old(self).source(), old(self).cursor()).1,
            old(self).cursor() <= final(self).cursor(),
            old(self).cursor() < old(self).source().len()
                ==> old(self).cursor() < final(self).cursor(),
            r is Some <==> step(old(self).source(), old(self).cursor()).0 is Some,
            r matches Some(s) ==> s@ == decode_utf8(
                step(old(self).source(), old(self).cursor()).0->0,
            ),
    {
        proof {
            lemma_step(self.src@, self.pos as int);
        }
        self.skip_ws();
        match self.ch() {
            Some(c) => {
                if c == QUOTE {
                    proof {
                        let ghost src = self.src@;
                        let ghost s = self.pos as int;
                        lemma_quoted_end(src, s + 1);
                        if quoted_end(src, s + 1) == s + 1 {
                            assert(src.subrange(s + 1, s + 1).len() == 0);
                        }
                    }
                    self.quoted_string()
                } else {
                    proof {
                        lemma_word_end(self.src@, self.pos as int + 1);
                    }
                    self.string()
                }
            },
            None => None,
        }
    }

    /// Drains the lexer: the tokens it hands out, in order, up to the first pull
    /// that yields none.
    pub fn collect(self) -> (r: Vec<String>)
        requires
            self.wf(),
            pass_decodable(self.source(), self.cursor()),
        ensures
            r@.len() == tokens_from(self.source(), self.cursor()).len(),
            forall|i: int|
                0 <= i < r@.len() ==> #[trigger] r@[i]@ == decode_utf8(
                    tokens_from(self.source(), self.cursor())[i],
                ),
    {
        let ghost src = self.source();
        let ghost all = tokens_from(src, self.cursor());
        let ghost mut done: Seq<Seq<u8>> = seq![];
        let mut lexer = self;
        let mut out: Vec<String> = Vec::new();
        loop
            invariant_except_break
                all == done + tokens_from(src, lexer.cursor()),
            invariant
                lexer.wf(),
                lexer.source() == src,
                forall|i: int| 0 <= i < all.len() ==> valid_utf8(#[trigger] all[i]),
                out@.len() == done.len(),
                forall|i: int| 0 <= i < out@.len() ==> #[trigger] out@[i]@ == decode_utf8(done[i]),
            ensures
                out@.len() == all.len(),
                forall|i: int| 0 <= i < out@.len() ==> #[trigger] out@[i]@ == decode_utf8(all[i]),
            decreases src.len() - lexer.cursor(),
        {
            let ghost before = lexer.cursor();
            proof {
                lemma_step(src, before);
                if step(src, before).0 is Some {
                    assert(all[done.len() as int] == step(src, before).0->0);
                }
            }
            match lexer.next() {
                Some(s) => {
                    proof {
                        done = done.push(step(src, before).0->0);
                        assert(all =~= done + tokens_from(src, lexer.cursor()));
                    }
                    out.push(s);
                },
                None => {
                    assert(all =~= done);
                    break;
                },
            }
        }
        out
    }
}

} // verus!
