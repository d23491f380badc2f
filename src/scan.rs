//! The mathematical model of tokenizing: where each scan over the bytes stops,
//! what one pull of the lexer hands out, and the list of tokens a whole pass yields.

use vstd::prelude::*;
use vstd::utf8::valid_utf8;

verus! {

/// The double-quote byte that opens and closes a quoted span.
pub const QUOTE: u8 = 0x22;

/// Space, carriage return, line feed and horizontal tab, and nothing else.
pub open spec fn is_ws_byte(b: u8) -> bool {
    b == 0x20 || b == 0x0d || b == 0x0a || b == 0x09
}

/// The first index at or after `pos` that does not hold whitespace, or the end.
pub open spec fn ws_end(src: Seq<u8>, pos: int) -> int
    decreases src.len() - pos,
{
    if 0 <= pos < src.len() && is_ws_byte(src[pos]) {
        ws_end(src, pos + 1)
    } else {
        pos
    }
}

/// The first index at or after `pos` that holds whitespace or a quote, or the end.
pub open spec fn word_end(src: Seq<u8>, pos: int) -> int
    decreases src.len() - pos,
{
    if 0 <= pos < src.len() && !is_ws_byte(src[pos]) && src[pos] != QUOTE {
        word_end(src, pos + 1)
    } else {
        pos
    }
}

/// The first index at or after `pos` that holds a quote, or the end.
pub open spec fn quoted_end(src: Seq<u8>, pos: int) -> int
    decreases src.len() - pos,
{
    if 0 <= pos < src.len() && src[pos] != QUOTE {
        quoted_end(src, pos + 1)
    } else {
        pos
    }
}

/// What one pull makes of the buffer with the cursor at `pos`: the bytes of the
/// token it hands out, if any, and where it leaves the cursor.
///
/// Leading whitespace is skipped. A quote opens a span that runs to the next
/// quote or to the end, and the closing quote, if there is one, is consumed; an
/// empty span yields no token. Otherwise the token runs up to the next
/// whitespace, quote or end.
pub open spec fn step(src: Seq<u8>, pos: int) -> (Option<Seq<u8>>, int) {
    let s = ws_end(src, pos);
    if s >= src.len() {
        (None, s)
    } else if src[s] == QUOTE {
        let e = quoted_end(src, s + 1);
        let next = if e < src.len() {
            e + 1
        } else {
            e
        };
        (if e > s + 1 {
            Some(src.subrange(s + 1, e))
        } else {
            None
        }, next)
    } else {
        let e = word_end(src, s);
        (Some(src.subrange(s, e)), e)
    }
}

/// The tokens that repeated pulls from `pos` hand out, up to the first pull
/// that yields no token.
pub open spec fn tokens_from(src: Seq<u8>, pos: int) -> Seq<Seq<u8>>
    decreases src.len() - pos,
    via tokens_from_decreases
{
    if 0 <= pos <= src.len() {
        match step(src, pos).0 {
            Some(t) => seq![t] + tokens_from(src, step(src, pos).1),
            None => seq![],
        }
    } else {
        seq![]
    }
}

#[via_fn]
proof fn tokens_from_decreases(src: Seq<u8>, pos: int) {
    if 0 <= pos <= src.len() {
        lemma_step(src, pos);
    }
}

/// Where the cursor stands after `k` pulls from `pos`.
pub open spec fn cursor_after(src: Seq<u8>, pos: int, k: nat) -> int
    decreases k,
{
    if k == 0 {
        pos
    } else {
        step(src, cursor_after(src, pos, (k - 1) as nat)).1
    }
}

/// Every token of a pass from `pos` is valid UTF-8, so that each can be decoded.
pub open spec fn pass_decodable(src: Seq<u8>, pos: int) -> bool {
    forall|i: int| 0 <= i < tokens_from(src, pos).len() ==> valid_utf8(#[trigger] tokens_from(src, pos)[i])
}

/// The token of the next pull from `pos`, if there is one, is valid UTF-8.
pub open spec fn next_decodable(src: Seq<u8>, pos: int) -> bool {
    step(src, pos).0 matches Some(t) ==> valid_utf8(t)
}

pub proof fn lemma_ws_end(src: Seq<u8>, pos: int)
    requires
        0 <= pos <= src.len(),
    ensures
        pos <= ws_end(src, pos) <= src.len(),
        ws_end(src, pos) < src.len() ==> !is_ws_byte(src[ws_end(src, pos)]),
        forall|i: int| pos <= i < ws_end(src, pos) ==> is_ws_byte(#[trigger] src[i]),
    decreases src.len() - pos,
{
    if pos < src.len() && is_ws_byte(src[pos]) {
        lemma_ws_end(src, pos + 1);
    }
}

pub proof fn lemma_word_end(src: Seq<u8>, pos: int)
    requires
        0 <= pos <= src.len(),
    ensures
        pos <= word_end(src, pos) <= src.len(),
        word_end(src, pos) < src.len() ==> is_ws_byte(src[word_end(src, pos)]) || src[word_end(
            src,
            pos,
        )] == QUOTE,
        forall|i: int|
            pos <= i < word_end(src, pos) ==> !is_ws_byte(#[trigger] src[i]) && src[i] != QUOTE,
    decreases src.len() - pos,
{
    if pos < src.len() && !is_ws_byte(src[pos]) && src[pos] != QUOTE {
        lemma_word_end(src, pos + 1);
    }
}

pub proof fn lemma_quoted_end(src: Seq<u8>, pos: int)
    requires
        0 <= pos <= src.len(),
    ensures
        pos <= quoted_end(src, pos) <= src.len(),
        quoted_end(src, pos) < src.len() ==> src[quoted_end(src, pos)] == QUOTE,
        forall|i: int| pos <= i < quoted_end(src, pos) ==> #[trigger] src[i] != QUOTE,
    decreases src.len() - pos,
{
    if pos < src.len() && src[pos] != QUOTE {
        lemma_quoted_end(src, pos + 1);
    }
}

/// One pull never moves the cursor back nor past the end; it moves it forward
/// whenever the buffer is not yet used up, and every token it hands out is non-empty.
pub proof fn lemma_step(src: Seq<u8>, pos: int)
    requires
        0 <= pos <= src.len(),
    ensures
        pos <= step(src, pos).1 <= src.len(),
        pos < src.len() ==> pos < step(src, pos).1,
        step(src, pos).0 matches Some(t) ==> 0 < t.len() <= step(src, pos).1 - pos,
{
    lemma_ws_end(src, pos);
    let s = ws_end(src, pos);
    if s < src.len() {
        if src[s] == QUOTE {
            lemma_quoted_end(src, s + 1);
        } else {
            lemma_word_end(src, s);
        }
    }
}

} // verus!
