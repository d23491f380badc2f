//! What holds of every pass over every buffer.

use vstd::prelude::*;
use vstd::utf8::{
    is_char_boundary, is_char_boundary_iff_not_is_continuation_byte,
    is_char_boundary_start_end_of_seq, is_continuation_byte, valid_utf8, valid_utf8_split,
};

use crate::scan::{
    cursor_after, is_ws_byte, lemma_quoted_end, lemma_step, lemma_word_end, lemma_ws_end,
    next_decodable, pass_decodable, quoted_end, step, tokens_from, word_end, ws_end, QUOTE,
};

verus! {

/// At the end of the buffer a pull yields no token and leaves the cursor where it is.
pub proof fn lemma_step_at_end(src: Seq<u8>)
    ensures
        step(src, src.len() as int) == (None::<Seq<u8>>, src.len() as int),
{
    assert(ws_end(src, src.len() as int) == src.len());
}

proof fn lemma_cursor_after_bounds(src: Seq<u8>, pos: int, k: nat)
    requires
        0 <= pos <= src.len(),
    ensures
        pos <= cursor_after(src, pos, k) <= src.len(),
        pos + k <= cursor_after(src, pos, k) || cursor_after(src, pos, k) == src.len(),
    decreases k,
{
    if k > 0 {
        lemma_cursor_after_bounds(src, pos, (k - 1) as nat);
        lemma_step(src, cursor_after(src, pos, (k - 1) as nat));
    }
}

/// A pass always ends, within the length of the buffer. From `pos`, the cursor
/// never decreases from one pull to the next and never passes the end; after as
/// many pulls as there are bytes left the buffer is used up; and a pass yields at
/// most one token per byte left.
pub proof fn lemma_pass_terminates(src: Seq<u8>, pos: int, k: nat)
    requires
        0 <= pos <= src.len(),
    ensures
        cursor_after(src, pos, k) <= cursor_after(src, pos, k + 1) <= src.len(),
        k >= src.len() - pos ==> cursor_after(src, pos, k) == src.len(),
        tokens_from(src, pos).len() <= src.len() - pos,
{
    lemma_cursor_after_bounds(src, pos, k);
    lemma_step(src, cursor_after(src, pos, k));
    lemma_tokens_bounded(src, pos);
}

proof fn lemma_tokens_bounded(src: Seq<u8>, pos: int)
    requires
        0 <= pos <= src.len(),
    ensures
        tokens_from(src, pos).len() <= src.len() - pos,
    decreases src.len() - pos,
{
    lemma_step(src, pos);
    if step(src, pos).0 is Some {
        lemma_tokens_bounded(src, step(src, pos).1);
    }
}

/// Once a pull yields no token and leaves the cursor at the end of the buffer,
/// every later pull yields no token and leaves the cursor there.
pub proof fn lemma_exhaustion_idempotent(src: Seq<u8>, pos: int, k: nat)
    requires
        0 <= pos <= src.len(),
        step(src, pos).0 is None,
        step(src, pos).1 == src.len(),
    ensures
        cursor_after(src, pos, k + 1) == src.len(),
        step(src, cursor_after(src, pos, k + 1)).0 is None,
    decreases k,
{
    lemma_step_at_end(src);
    if k > 0 {
        lemma_exhaustion_idempotent(src, pos, (k - 1) as nat);
        assert(cursor_after(src, pos, k) == src.len());
    } else {
        assert(cursor_after(src, pos, 0) == pos);
    }
    assert(cursor_after(src, pos, k + 1) == step(src, cursor_after(src, pos, k)).1);
}

/// A non-empty buffer with no whitespace and no quote in it is a single token:
/// the whole buffer.
pub proof fn lemma_single_word(src: Seq<u8>)
    requires
        src.len() > 0,
        forall|i: int| 0 <= i < src.len() ==> !is_ws_byte(#[trigger] src[i]) && src[i] != QUOTE,
    ensures
        tokens_from(src, 0) == seq![src],
{
    assert(ws_end(src, 0) == 0);
    lemma_word_end(src, 0);
    assert(word_end(src, 0) == src.len());
    assert(src.subrange(0, src.len() as int) =~= src);
    lemma_step_at_end(src);
    assert(tokens_from(src, src.len() as int) =~= Seq::<Seq<u8>>::empty());
    assert(tokens_from(src, 0) =~= seq![src]);
}

/// In valid UTF-8 the byte after an ASCII byte starts a character.
proof fn lemma_boundary_after_ascii(src: Seq<u8>, i: int)
    requires
        valid_utf8(src),
        0 < i <= src.len(),
        src[i - 1] < 0x80,
    ensures
        is_char_boundary(src, i),
{
    is_char_boundary_start_end_of_seq(src);
    if i < src.len() {
        is_char_boundary_iff_not_is_continuation_byte(src, i - 1);
        valid_utf8_split(src, i - 1);
        let t = src.subrange(i - 1, src.len() as int);
        let u = src.subrange(i, src.len() as int);
        assert(t[0] == src[i - 1]);
        assert(valid_utf8(t));
        assert(vstd::utf8::pop_first_scalar(t) =~= u);
        assert(valid_utf8(u));
        assert(u[0] == src[i]);
        assert(!is_continuation_byte(src[i]));
        is_char_boundary_iff_not_is_continuation_byte(src, i);
    }
}

/// In valid UTF-8 an index that holds an ASCII byte, or the end, starts a character.
proof fn lemma_boundary_at_ascii(src: Seq<u8>, i: int)
    requires
        valid_utf8(src),
        0 <= i <= src.len(),
        i < src.len() ==> src[i] < 0x80,
    ensures
        is_char_boundary(src, i),
{
    is_char_boundary_start_end_of_seq(src);
    if i < src.len() {
        is_char_boundary_iff_not_is_continuation_byte(src, i);
    }
}

/// The bytes between two character boundaries of valid UTF-8 are valid UTF-8.
proof fn lemma_span_valid(src: Seq<u8>, a: int, b: int)
    requires
        valid_utf8(src),
        0 <= a <= b <= src.len(),
        is_char_boundary(src, a),
        is_char_boundary(src, b),
    ensures
        valid_utf8(src.subrange(a, b)),
{
    valid_utf8_split(src, b);
    let p = src.subrange(0, b);
    is_char_boundary_start_end_of_seq(p);
    if a < b {
        is_char_boundary_iff_not_is_continuation_byte(src, a);
        assert(p[a] == src[a]);
        is_char_boundary_iff_not_is_continuation_byte(p, a);
    }
    assert(p.len() == b);
    valid_utf8_split(p, a);
    assert(p.subrange(a, b) =~= src.subrange(a, b));
}

/// From a character boundary of valid UTF-8, the next pull's token is valid UTF-8
/// and the cursor stops on a character boundary again.
proof fn lemma_utf8_step(src: Seq<u8>, pos: int)
    requires
        valid_utf8(src),
        0 <= pos <= src.len(),
        is_char_boundary(src, pos),
    ensures
        next_decodable(src, pos),
        is_char_boundary(src, step(src, pos).1),
{
    lemma_ws_end(src, pos);
    let s = ws_end(src, pos);
    if s > pos {
        assert(is_ws_byte(src[s - 1]));
        lemma_boundary_after_ascii(src, s);
    }
    if s < src.len() {
        if src[s] == QUOTE {
            lemma_boundary_after_ascii(src, s + 1);
            lemma_quoted_end(src, s + 1);
            let e = quoted_end(src, s + 1);
            lemma_boundary_at_ascii(src, e);
            lemma_span_valid(src, s + 1, e);
            if e < src.len() {
                lemma_boundary_after_ascii(src, e + 1);
            }
        } else {
            lemma_word_end(src, s);
            let e = word_end(src, s);
            lemma_boundary_at_ascii(src, e);
            lemma_span_valid(src, s, e);
        }
    }
}

/// Every token of a pass over valid UTF-8, from a character boundary such as the
/// start, is valid UTF-8: whitespace and quotes are ASCII, so every cut falls
/// between characters.
pub proof fn lemma_utf8_pass_decodable(src: Seq<u8>, pos: int)
    requires
        valid_utf8(src),
        0 <= pos <= src.len(),
        is_char_boundary(src, pos),
    ensures
        next_decodable(src, pos),
        pass_decodable(src, pos),
    decreases src.len() - pos,
{
    lemma_utf8_step(src, pos);
    lemma_step(src, pos);
    if let Some(t) = step(src, pos).0 {
        let p1 = step(src, pos).1;
        lemma_utf8_pass_decodable(src, p1);
        assert forall|i: int| 0 <= i < tokens_from(src, pos).len() implies valid_utf8(
            #[trigger] tokens_from(src, pos)[i],
        ) by {
            if i > 0 {
                assert(tokens_from(src, pos)[i] == tokens_from(src, p1)[i - 1]);
            }
        }
    }
}

/// Every token of a whole pass over valid UTF-8 is valid UTF-8.
pub proof fn lemma_utf8_buffer_decodable(src: Seq<u8>)
    requires
        valid_utf8(src),
    ensures
        pass_decodable(src, 0),
{
    is_char_boundary_start_end_of_seq(src);
    lemma_utf8_pass_decodable(src, 0);
}

} // verus!
