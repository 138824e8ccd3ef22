//! Message codec: the wire form of a command.
//!
//! A command string is encoded as a sequence of tokens.  Scanning left to
//! right, a quote character (`"` or `'`) is never copied to the output and
//! only toggles the quote state; a space outside an open quote becomes a nul
//! separator; every other character passes through.  If the scanned body ends
//! in a nul, that duplicate trailing nul is dropped, and two terminating nul
//! bytes are then appended.
//!
//! Decoding walks a length-bounded byte view until two consecutive nul bytes
//! are found; every single nul renders as a line break, every other byte as a
//! character.

use vstd::prelude::*;

verus! {

/// The characters that open and close quoted spans.
pub open spec fn is_quote(c: char) -> bool {
    c == '"' || c == '\''
}

/// Quote state after seeing quote character `c` in state `q`: a matching
/// quote closes the span, any other quote character becomes the open quote.
/// The state `'\0'` means "outside any quote".
pub open spec fn quote_after(q: char, c: char) -> char {
    if c == q {
        '\0'
    } else {
        c
    }
}

/// The wire byte for one scanned character (a character wider than one byte
/// is truncated to its low byte, as the scan stores bytes).
pub open spec fn byte_of(c: char) -> u8 {
    ((c as u32) % 256) as u8
}

/// The scanned body of the wire message for the remaining input `s` with
/// current quote state `q`: quotes dropped, separating spaces turned into
/// nul bytes, all other characters passed through as bytes.
pub open spec fn wire_body(s: Seq<char>, q: char) -> Seq<u8>
    decreases s.len(),
{
    if s.len() == 0 {
        Seq::empty()
    } else {
        let c = s[0];
        if is_quote(c) {
            wire_body(s.drop_first(), quote_after(q, c))
        } else if c == ' ' && q == '\0' {
            seq![0u8] + wire_body(s.drop_first(), q)
        } else {
            seq![byte_of(c)] + wire_body(s.drop_first(), q)
        }
    }
}

/// The complete wire message for a command: the scanned body, less one
/// duplicate trailing nul, followed by the two terminating nul bytes.
pub open spec fn encode_spec(s: Seq<char>) -> Seq<u8> {
    let body = wire_body(s, '\0');
    let trimmed = if body.len() > 0 && body.last() == 0u8 {
        body.drop_last()
    } else {
        body
    };
    trimmed + seq![0u8, 0u8]
}

/// Two consecutive nul bytes stand at position `i`, at or after `off`.
pub open spec fn terminates_at(b: Seq<u8>, off: int, i: int) -> bool {
    off <= i && i + 1 < b.len() && b[i] == 0 && b[i + 1] == 0
}

/// Somewhere at or after `off`, two consecutive nul bytes terminate the
/// message.
pub open spec fn has_terminator(b: Seq<u8>, off: int) -> bool {
    exists|i: int| terminates_at(b, off, i)
}

/// The text decoded from `b` starting at `i`: stop at two consecutive nul
/// bytes, render a single nul as a line break and any other byte as the
/// character with that code.
pub open spec fn decode_from(b: Seq<u8>, i: int) -> Seq<char>
    decreases b.len() - i,
{
    if i < 0 || i >= b.len() {
        Seq::empty()
    } else if b[i] == 0 && i + 1 < b.len() && b[i + 1] == 0 {
        Seq::empty()
    } else {
        let c = if b[i] == 0 {
            '\n'
        } else {
            b[i] as char
        };
        seq![c] + decode_from(b, i + 1)
    }
}

/// Relies on `String::push`: appends the given character to the end of the
/// string.
#[verifier::external_body]
pub(crate) fn push_char(s: &mut String, c: char)
    ensures
        final(s)@ == old(s)@.push(c),
{
    s.push(c);
}

/// Encode a command string into its wire form.
pub fn format_mach_message(message: &str) -> (r: Vec<u8>)
    ensures
        r@ == encode_spec(message@),
        r@.len() <= message@.len() + 2,
        r@.len() >= 2,
{
    let ghost s = message@;
    let n = message.unicode_len();
    let mut out: Vec<u8> = Vec::new();
    let mut quote: char = '\0';
    let mut i: usize = 0;
    proof {
        assert(s.skip(0) =~= s);
    }
    while i < n
        invariant
            n == s.len(),
            s == message@,
            i <= n,
            out@.len() <= i,
            out@ + wire_body(s.skip(i as int), quote) == wire_body(s, '\0'),
        decreases n - i,
    {
        let c = message.get_char(i);
        proof {
            assert(s.skip(i as int)[0] == s[i as int]);
            assert(s.skip(i as int).drop_first() =~= s.skip(i as int + 1));
        }
        if c == '"' || c == '\'' {
            quote = if c == quote {
                '\0'
            } else {
                c
            };
        } else if c == ' ' && quote == '\0' {
            out.push(0u8);
            proof {
                assert(out@ + wire_body(s.skip(i as int + 1), quote) =~= wire_body(s, '\0'));
            }
        } else {
            let code: u32 = c as u32;
            let b: u8 = (code % 256) as u8;
            assert(b == byte_of(c));
            out.push(b);
            proof {
                assert(out@ + wire_body(s.skip(i as int + 1), quote) =~= wire_body(s, '\0'));
            }
        }
        i = i + 1;
    }
    proof {
        assert(s.skip(n as int) =~= Seq::<char>::empty());
        assert(out@ + wire_body(s.skip(n as int), quote) =~= out@);
        assert(out@ == wire_body(s, '\0'));
    }
    if out.len() > 0 && out[out.len() - 1] == 0u8 {
        out.pop();
        proof {
            assert(out@ =~= wire_body(s, '\0').drop_last());
        }
    }
    out.push(0u8);
    out.push(0u8);
    proof {
        assert(out@ =~= encode_spec(s));
    }
    out
}

/// Decode a wire message from a length-bounded byte view, starting at the
/// given offset.  The caller guarantees that two consecutive nul bytes
/// terminate the message inside the view.
pub fn read_double_nul_terminated_string(buffer: &[u8], offset: usize) -> (r: String)
    requires
        has_terminator(buffer@, offset as int),
    ensures
        r@ == decode_from(buffer@, offset as int),
{
    let ghost b = buffer@;
    let mut caret: usize = offset;
    let mut result = String::new();
    proof {
        assert(result@ + decode_from(b, caret as int) =~= decode_from(b, offset as int));
    }
    loop
        invariant
            b == buffer@,
            offset <= caret,
            has_terminator(b, caret as int),
            result@ + decode_from(b, caret as int) == decode_from(b, offset as int),
        decreases b.len() - caret,
    {
        proof {
            let w = choose|w: int| terminates_at(b, caret as int, w);
            assert(w + 1 < b.len());
        }
        let byte = buffer[caret];
        if byte == 0 {
            if buffer[caret + 1] == 0 {
                proof {
                    assert(decode_from(b, caret as int) =~= Seq::<char>::empty());
                    assert(result@ =~= decode_from(b, offset as int));
                }
                return result;
            }
            push_char(&mut result, '\n');
        } else {
            push_char(&mut result, byte as char);
        }
        proof {
            let w = choose|w: int| terminates_at(b, caret as int, w);
            assert(w != caret as int);
            assert(terminates_at(b, caret as int + 1, w));
            assert(decode_from(b, caret as int) =~= seq![
                if b[caret as int] == 0 {
                    '\n'
                } else {
                    b[caret as int] as char
                },
            ] + decode_from(b, caret as int + 1));
            assert(result@ + decode_from(b, caret as int + 1) =~= decode_from(b, offset as int));
        }
        caret = caret + 1;
    }
}

/// Decode a wire message if, and only if, the view holds a double-nul
/// terminator at or after the offset; a view without one yields nothing
/// instead of an unterminated read.
pub fn try_read_double_nul_terminated_string(buffer: &[u8], offset: usize) -> (r: Option<String>)
    ensures
        has_terminator(buffer@, offset as int) ==> (r matches Some(s) && s@ == decode_from(
            buffer@,
            offset as int,
        )),
        !has_terminator(buffer@, offset as int) ==> r is None,
{
    let ghost b = buffer@;
    if buffer.len() == 0 {
        return None;
    }
    let mut i: usize = offset;
    while i < buffer.len() - 1
        invariant
            b == buffer@,
            b.len() > 0,
            offset <= i,
            forall|j: int| offset <= j < i ==> !terminates_at(b, offset as int, j),
        decreases b.len() - i,
    {
        if buffer[i] == 0 && buffer[i + 1] == 0 {
            assert(terminates_at(b, offset as int, i as int));
            return Some(read_double_nul_terminated_string(buffer, offset));
        }
        i = i + 1;
    }
    proof {
        assert forall|j: int| !terminates_at(b, offset as int, j) by {
            if terminates_at(b, offset as int, j) {
                assert(offset <= j < i);
            }
        }
    }
    None
}

// ---------------------------------------------------------------------------
// The round trip: decoding an encoded command yields exactly its tokens —
// the words split at whitespace outside quoted spans, quotes removed —
// joined by line breaks.
// ---------------------------------------------------------------------------
/// The command's words as the scan sees them: split at separating spaces
/// outside quotes, quotes dropped.  There is always at least one word, and a
/// word is empty where two separators are adjacent or one leads the command.
pub open spec fn split_words(s: Seq<char>, q: char) -> Seq<Seq<char>>
    decreases s.len(),
{
    if s.len() == 0 {
        seq![Seq::<char>::empty()]
    } else {
        let c = s[0];
        if is_quote(c) {
            split_words(s.drop_first(), quote_after(q, c))
        } else if c == ' ' && q == '\0' {
            seq![Seq::<char>::empty()] + split_words(s.drop_first(), q)
        } else {
            let rest = split_words(s.drop_first(), q);
            seq![seq![c] + rest[0]] + rest.drop_first()
        }
    }
}

/// Words without the trailing empty ones (which only trailing separators
/// produce).
pub open spec fn drop_trailing_empties(ws: Seq<Seq<char>>) -> Seq<Seq<char>>
    decreases ws.len(),
{
    if ws.len() > 0 && ws.last().len() == 0 {
        drop_trailing_empties(ws.drop_last())
    } else {
        ws
    }
}

/// The tokens of a command: whitespace word-splitting outside quoted spans,
/// quote characters removed, trailing empty words dropped.
pub open spec fn command_tokens(s: Seq<char>) -> Seq<Seq<char>> {
    drop_trailing_empties(split_words(s, '\0'))
}

/// Tokens joined by line breaks: the decoded text they render as.
pub open spec fn join_nl(ws: Seq<Seq<char>>) -> Seq<char>
    decreases ws.len(),
{
    if ws.len() == 0 {
        Seq::empty()
    } else if ws.len() == 1 {
        ws[0]
    } else {
        ws[0] + seq!['\n'] + join_nl(ws.drop_first())
    }
}

/// Every character is one nonzero byte wide: the single-byte subset that the
/// byte-per-character wire form carries faithfully.
pub open spec fn latin1(s: Seq<char>) -> bool {
    forall|i: int| 0 <= i < s.len() ==> 0 < (#[trigger] s[i]) as u32 <= 255
}

/// Empty words stand only at the tail: the command has no leading separator
/// and no two adjacent ones.
pub open spec fn words_ok(ws: Seq<Seq<char>>) -> bool {
    forall|i: int, j: int|
        0 <= i <= j < ws.len() && (#[trigger] ws[i]).len() == 0 ==> (#[trigger] ws[j]).len() == 0
}

/// Every character of every word is one nonzero byte wide.
spec fn words_latin1(ws: Seq<Seq<char>>) -> bool {
    forall|i: int, j: int|
        0 <= i < ws.len() && 0 <= j < ws[i].len() ==> 0 < (#[trigger] ws[i][j]) as u32 <= 255
}

/// The wire bytes of one word.
spec fn bytes_of_word(w: Seq<char>) -> Seq<u8> {
    w.map_values(|c: char| byte_of(c))
}

/// The wire bytes of a word list: each pair of adjacent words separated by
/// one nul byte.
spec fn join_wire(ws: Seq<Seq<char>>) -> Seq<u8>
    decreases ws.len(),
{
    if ws.len() == 0 {
        Seq::empty()
    } else if ws.len() == 1 {
        bytes_of_word(ws[0])
    } else {
        bytes_of_word(ws[0]) + seq![0u8] + join_wire(ws.drop_first())
    }
}

spec fn zeros(n: int) -> Seq<u8> {
    Seq::new(n as nat, |i: int| 0u8)
}

spec fn chars_of(bs: Seq<u8>) -> Seq<char> {
    bs.map_values(|b: u8| b as char)
}

proof fn lemma_byte_char_roundtrip(c: char)
    requires
        0 < c as u32 <= 255,
    ensures
        byte_of(c) != 0,
        byte_of(c) as char == c,
{
    assert((c as u32) % 256 == c as u32);
    assert(byte_of(c) as u32 == c as u32);
}

proof fn lemma_split_words_nonempty(s: Seq<char>, q: char)
    ensures
        split_words(s, q).len() >= 1,
    decreases s.len(),
{
    if s.len() > 0 {
        lemma_split_words_nonempty(s.drop_first(), quote_after(q, s[0]));
        lemma_split_words_nonempty(s.drop_first(), q);
    }
}

proof fn lemma_split_words_latin1(s: Seq<char>, q: char)
    requires
        latin1(s),
    ensures
        words_latin1(split_words(s, q)),
    decreases s.len(),
{
    if s.len() == 0 {
    } else {
        let c = s[0];
        let rest = s.drop_first();
        assert(latin1(rest)) by {
            assert(forall|i: int| 0 <= i < rest.len() ==> #[trigger] rest[i] == s[i + 1]);
        }
        let ws = split_words(s, q);
        if is_quote(c) {
            lemma_split_words_latin1(rest, quote_after(q, c));
        } else if c == ' ' && q == '\0' {
            lemma_split_words_latin1(rest, q);
            let tail = split_words(rest, q);
            assert forall|i: int, j: int|
                0 <= i < ws.len() && 0 <= j < ws[i].len() implies 0 < (#[trigger] ws[i][j]) as u32
                <= 255 by {
                assert(i > 0);
                assert(ws[i] == tail[i - 1]);
                assert(ws[i][j] == tail[i - 1][j]);
            }
        } else {
            lemma_split_words_latin1(rest, q);
            lemma_split_words_nonempty(rest, q);
            let tail = split_words(rest, q);
            assert forall|i: int, j: int|
                0 <= i < ws.len() && 0 <= j < ws[i].len() implies 0 < (#[trigger] ws[i][j]) as u32
                <= 255 by {
                if i == 0 {
                    assert(ws[0] == seq![c] + tail[0]);
                    if j == 0 {
                        assert(ws[0][0] == c);
                        assert(0 < c as u32 <= 255);
                    } else {
                        assert(ws[0][j] == tail[0][j - 1]);
                    }
                } else {
                    assert(ws[i] == tail.drop_first()[i - 1]);
                    assert(tail.drop_first()[i - 1] == tail[i]);
                    assert(ws[i][j] == tail[i][j]);
                }
            }
        }
    }
}

proof fn lemma_bytes_cons(c: char, w: Seq<char>)
    ensures
        bytes_of_word(seq![c] + w) == seq![byte_of(c)] + bytes_of_word(w),
{
    assert(bytes_of_word(seq![c] + w) =~= seq![byte_of(c)] + bytes_of_word(w));
}

/// The scanned body is the words' bytes joined by single nul separators.
proof fn lemma_wire_body_words(s: Seq<char>, q: char)
    ensures
        wire_body(s, q) == join_wire(split_words(s, q)),
    decreases s.len(),
{
    if s.len() == 0 {
        assert(bytes_of_word(Seq::<char>::empty()) =~= Seq::<u8>::empty());
    } else {
        let c = s[0];
        let rest = s.drop_first();
        if is_quote(c) {
            lemma_wire_body_words(rest, quote_after(q, c));
        } else if c == ' ' && q == '\0' {
            lemma_wire_body_words(rest, q);
            lemma_split_words_nonempty(rest, q);
            let tail = split_words(rest, q);
            let ws = split_words(s, q);
            assert(ws.drop_first() =~~= tail);
            assert(ws[0] =~= Seq::<char>::empty());
            assert(bytes_of_word(ws[0]) =~= Seq::<u8>::empty());
            assert(join_wire(ws) =~= seq![0u8] + join_wire(tail));
        } else {
            lemma_wire_body_words(rest, q);
            lemma_split_words_nonempty(rest, q);
            let tail = split_words(rest, q);
            let ws = split_words(s, q);
            assert(ws[0] == seq![c] + tail[0]);
            lemma_bytes_cons(c, tail[0]);
            if tail.len() == 1 {
                assert(ws.len() == 1);
                assert(join_wire(tail) == bytes_of_word(tail[0]));
                assert(join_wire(ws) =~= seq![byte_of(c)] + join_wire(tail));
            } else {
                assert(ws.len() >= 2);
                assert(ws.drop_first() =~~= tail.drop_first());
                assert(join_wire(ws) == bytes_of_word(ws[0]) + seq![0u8] + join_wire(
                    ws.drop_first(),
                ));
                assert(join_wire(ws) =~= seq![byte_of(c)] + join_wire(tail));
            }
        }
    }
}

/// Appending one empty word appends one separator byte.
proof fn lemma_join_wire_push_empty(ws: Seq<Seq<char>>)
    requires
        ws.len() >= 1,
    ensures
        join_wire(ws.push(Seq::<char>::empty())) == join_wire(ws) + seq![0u8],
    decreases ws.len(),
{
    let e = Seq::<char>::empty();
    let pushed = ws.push(e);
    if ws.len() == 1 {
        assert(pushed.drop_first() =~~= seq![e]);
        assert(join_wire(seq![e]) == bytes_of_word(e));
        assert(bytes_of_word(e) =~= Seq::<u8>::empty());
        assert(join_wire(pushed) =~= join_wire(ws) + seq![0u8]);
    } else {
        assert(pushed.drop_first() =~~= ws.drop_first().push(e));
        lemma_join_wire_push_empty(ws.drop_first());
        assert(pushed[0] == ws[0]);
        assert(join_wire(pushed) =~= join_wire(ws) + seq![0u8]);
    }
}

/// With empty words only at the tail, the body splits into the tokens' wire
/// bytes followed by one zero per trailing empty word.
proof fn lemma_body_structure(ws: Seq<Seq<char>>)
    requires
        ws.len() >= 1,
        words_ok(ws),
    ensures
        ({
            let t = drop_trailing_empties(ws);
            &&& t.len() <= ws.len()
            &&& forall|i: int| 0 <= i < t.len() ==> (#[trigger] t[i]) == ws[i]
            &&& forall|i: int| 0 <= i < t.len() ==> (#[trigger] t[i]).len() > 0
            &&& (t.len() == 0 ==> join_wire(ws) == zeros(ws.len() - 1))
            &&& (t.len() > 0 ==> join_wire(ws) == join_wire(t) + zeros(ws.len() - t.len()))
        }),
    decreases ws.len(),
{
    let t = drop_trailing_empties(ws);
    if ws.last().len() == 0 {
        if ws.len() == 1 {
            assert(t =~~= Seq::<Seq<char>>::empty());
            assert(ws =~~= seq![Seq::<char>::empty()]);
            assert(join_wire(ws) == bytes_of_word(ws[0]));
            assert(join_wire(ws) =~= zeros(0));
        } else {
            let wd = ws.drop_last();
            assert(words_ok(wd)) by {
                assert(forall|i: int| 0 <= i < wd.len() ==> #[trigger] wd[i] == ws[i]);
            }
            lemma_body_structure(wd);
            assert(ws.last() =~= Seq::<char>::empty());
            assert(wd.push(Seq::<char>::empty()) =~~= ws);
            lemma_join_wire_push_empty(wd);
            assert(join_wire(ws) == join_wire(wd) + seq![0u8]);
            let td = drop_trailing_empties(wd);
            assert(t == td);
            if td.len() == 0 {
                assert(join_wire(wd) == zeros(wd.len() - 1));
                assert(join_wire(ws) =~= zeros(ws.len() - 1));
            } else {
                assert(join_wire(wd) == join_wire(td) + zeros(wd.len() - td.len()));
                assert(join_wire(ws) =~= join_wire(t) + zeros(ws.len() - t.len()));
            }
        }
    } else {
        assert(t == ws);
        assert forall|i: int| 0 <= i < t.len() implies (#[trigger] t[i]).len() > 0 by {
            if t[i].len() == 0 {
                assert(ws[i].len() == 0 && i <= ws.len() - 1 < ws.len());
                assert(ws[ws.len() - 1].len() == 0);
            }
        }
        assert(join_wire(ws) =~= join_wire(t) + zeros(0));
    }
}

/// The last byte of a nonempty token list's wire bytes is the last token's
/// last byte.
proof fn lemma_join_wire_last(ws: Seq<Seq<char>>)
    requires
        ws.len() >= 1,
        forall|i: int| 0 <= i < ws.len() ==> (#[trigger] ws[i]).len() > 0,
    ensures
        join_wire(ws).len() >= 1,
        join_wire(ws).last() == byte_of(ws.last().last()),
    decreases ws.len(),
{
    if ws.len() == 1 {
        assert(join_wire(ws) == bytes_of_word(ws[0]));
        assert(bytes_of_word(ws[0]).len() == ws[0].len());
        assert(bytes_of_word(ws[0]).last() == byte_of(ws[0].last()));
    } else {
        let tail = ws.drop_first();
        assert(forall|i: int| 0 <= i < tail.len() ==> #[trigger] tail[i] == ws[i + 1]);
        lemma_join_wire_last(tail);
        assert(tail.last() == ws.last());
        assert(join_wire(ws) == bytes_of_word(ws[0]) + seq![0u8] + join_wire(tail));
        assert(join_wire(ws).last() == join_wire(tail).last());
    }
}

/// Decoding walks over a run of nonzero bytes, rendering each as its
/// character.
proof fn lemma_decode_nonzero_prefix(b: Seq<u8>, i: int, n: int)
    requires
        0 <= i,
        0 <= n,
        i + n <= b.len(),
        forall|j: int| i <= j < i + n ==> b[j] != 0,
    ensures
        decode_from(b, i) == chars_of(b.subrange(i, i + n)) + decode_from(b, i + n),
    decreases n,
{
    if n == 0 {
        assert(chars_of(b.subrange(i, i)) =~= Seq::<char>::empty());
        assert(decode_from(b, i) =~= chars_of(b.subrange(i, i)) + decode_from(b, i));
    } else {
        assert(b[i] != 0);
        lemma_decode_nonzero_prefix(b, i + 1, n - 1);
        assert(decode_from(b, i) == seq![b[i] as char] + decode_from(b, i + 1));
        assert(chars_of(b.subrange(i, i + n)) =~= seq![b[i] as char] + chars_of(
            b.subrange(i + 1, i + n),
        ));
        assert(decode_from(b, i) =~= chars_of(b.subrange(i, i + n)) + decode_from(b, i + n));
    }
}

/// Decoding from a later position is decoding the suffix.
proof fn lemma_decode_shift(b: Seq<u8>, j: int, i: int)
    requires
        0 <= j <= i,
        j <= b.len(),
    ensures
        decode_from(b, i) == decode_from(b.skip(j), i - j),
    decreases b.len() - i,
{
    let t = b.skip(j);
    assert(t.len() == b.len() - j);
    if i >= b.len() {
        assert(decode_from(b, i) =~= decode_from(t, i - j));
    } else {
        assert(t[i - j] == b[i]);
        if i + 1 < b.len() {
            assert(t[i - j + 1] == b[i + 1]);
        }
        if b[i] == 0 && i + 1 < b.len() && b[i + 1] == 0 {
            assert(decode_from(b, i) =~= decode_from(t, i - j));
        } else {
            lemma_decode_shift(b, j, i + 1);
            let c = if b[i] == 0 {
                '\n'
            } else {
                b[i] as char
            };
            assert(decode_from(b, i) == seq![c] + decode_from(b, i + 1));
            assert(decode_from(t, i - j) == seq![c] + decode_from(t, i - j + 1));
        }
    }
}

/// Decoding the wire bytes of nonempty single-byte tokens, then any run of
/// zeros, then the terminator, yields the tokens joined by line breaks.
proof fn lemma_decode_wire(t: Seq<Seq<char>>, m: int)
    requires
        0 <= m,
        forall|i: int| 0 <= i < t.len() ==> (#[trigger] t[i]).len() > 0,
        words_latin1(t),
    ensures
        decode_from(join_wire(t) + zeros(m) + seq![0u8, 0u8], 0) == join_nl(t),
    decreases t.len(),
{
    let buf = join_wire(t) + zeros(m) + seq![0u8, 0u8];
    if t.len() == 0 {
        assert(join_wire(t) =~= Seq::<u8>::empty());
        assert(buf[0] == 0 && buf[1] == 0);
        assert(decode_from(buf, 0) =~= Seq::<char>::empty());
    } else {
        let w0 = t[0];
        let k = w0.len() as int;
        assert forall|j: int| 0 <= j < k implies buf[j] != 0 && buf[j] == byte_of(w0[j]) by {
            assert(w0[j] == t[0][j]);
            assert(0 < (t[0][j]) as u32 <= 255);
            lemma_byte_char_roundtrip(w0[j]);
            if t.len() == 1 {
                assert(buf[j] == bytes_of_word(w0)[j]);
            } else {
                assert(join_wire(t) == bytes_of_word(w0) + seq![0u8] + join_wire(t.drop_first()));
                assert(buf[j] == bytes_of_word(w0)[j]);
            }
        }
        lemma_decode_nonzero_prefix(buf, 0, k);
        assert(chars_of(buf.subrange(0, k)) =~= w0) by {
            assert forall|j: int| 0 <= j < k implies chars_of(buf.subrange(0, k))[j] == w0[j] by {
                assert(w0[j] == t[0][j]);
                assert(0 < (t[0][j]) as u32 <= 255);
                lemma_byte_char_roundtrip(w0[j]);
                assert(buf.subrange(0, k)[j] == byte_of(w0[j]));
            }
        }
        if t.len() == 1 {
            assert(join_wire(t) == bytes_of_word(w0));
            assert(bytes_of_word(w0).len() == k);
            assert(buf[k] == 0);
            assert(buf[k + 1] == 0);
            assert(decode_from(buf, k) =~= Seq::<char>::empty());
            assert(decode_from(buf, 0) =~= w0);
            assert(join_nl(t) == w0);
        } else {
            let rest = t.drop_first();
            assert(forall|i: int| 0 <= i < rest.len() ==> #[trigger] rest[i] == t[i + 1]);
            assert(words_latin1(rest)) by {
                assert forall|i: int, j: int|
                    0 <= i < rest.len() && 0 <= j < rest[i].len() implies 0 < (#[trigger] rest[i][j])
                    as u32 <= 255 by {
                    assert(rest[i][j] == t[i + 1][j]);
                }
            }
            assert(join_wire(t) == bytes_of_word(w0) + seq![0u8] + join_wire(rest));
            assert(bytes_of_word(w0).len() == k);
            assert(buf[k] == 0);
            assert(buf.skip(k + 1) =~= join_wire(rest) + zeros(m) + seq![0u8, 0u8]);
            assert(buf.subrange(k + 1, buf.len() as int) =~= buf.skip(k + 1));
            lemma_split_rest_first_byte(rest, m, buf, k);
            assert(decode_from(buf, k) == seq!['\n'] + decode_from(buf, k + 1));
            lemma_decode_shift(buf, k + 1, k + 1);
            lemma_decode_wire(rest, m);
            assert(decode_from(buf, k + 1) == join_nl(rest));
            assert(join_nl(t) == w0 + seq!['\n'] + join_nl(rest));
            assert(decode_from(buf, 0) =~= join_nl(t));
        }
    }
}

/// Just past a separator stands the next token's first byte, which is not
/// zero; so the separator renders as a line break, not as the terminator.
proof fn lemma_split_rest_first_byte(rest: Seq<Seq<char>>, m: int, buf: Seq<u8>, k: int)
    requires
        0 <= m,
        0 <= k,
        rest.len() >= 1,
        forall|i: int| 0 <= i < rest.len() ==> (#[trigger] rest[i]).len() > 0,
        words_latin1(rest),
        buf.len() > k + 1,
        buf.subrange(k + 1, buf.len() as int) == join_wire(rest) + zeros(m) + seq![0u8, 0u8],
    ensures
        buf[k + 1] != 0,
{
    let w = rest[0];
    assert(0 < (rest[0][0]) as u32 <= 255);
    lemma_byte_char_roundtrip(w[0]);
    if rest.len() == 1 {
        assert(join_wire(rest) == bytes_of_word(w));
        assert(join_wire(rest)[0] == byte_of(w[0]));
    } else {
        assert(join_wire(rest) == bytes_of_word(w) + seq![0u8] + join_wire(rest.drop_first()));
        assert(join_wire(rest)[0] == byte_of(w[0]));
    }
    assert(buf[k + 1] == buf.subrange(k + 1, buf.len() as int)[0]);
    assert(buf[k + 1] == byte_of(w[0]));
}

/// The round trip: for a command of single-byte characters whose separators
/// neither lead nor double up, decoding the encoded wire form yields exactly
/// the command's tokens — whitespace word-splitting outside quoted spans,
/// quote characters removed — joined by line breaks.
pub proof fn lemma_encode_decode_round_trip(s: Seq<char>)
    requires
        latin1(s),
        words_ok(split_words(s, '\0')),
    ensures
        decode_from(encode_spec(s), 0) == join_nl(command_tokens(s)),
{
    let ws = split_words(s, '\0');
    lemma_split_words_nonempty(s, '\0');
    lemma_split_words_latin1(s, '\0');
    lemma_wire_body_words(s, '\0');
    lemma_body_structure(ws);
    let t = drop_trailing_empties(ws);
    let body = wire_body(s, '\0');
    let k = ws.len() - t.len();
    if t.len() == 0 {
        assert(body == zeros(ws.len() - 1));
        if ws.len() == 1 {
            assert(body.len() == 0);
            assert(encode_spec(s) =~= zeros(0) + seq![0u8, 0u8]);
            lemma_decode_wire(t, 0);
            assert(join_wire(t) =~= Seq::<u8>::empty());
            assert(encode_spec(s) =~= join_wire(t) + zeros(0) + seq![0u8, 0u8]);
        } else {
            assert(body.len() == ws.len() - 1 > 0);
            assert(body.last() == 0);
            assert(body.drop_last() =~= zeros(ws.len() - 2));
            assert(encode_spec(s) == zeros(ws.len() - 2) + seq![0u8, 0u8]);
            lemma_decode_wire(t, ws.len() - 2);
            assert(join_wire(t) =~= Seq::<u8>::empty());
            assert(encode_spec(s) =~= join_wire(t) + zeros(ws.len() - 2) + seq![0u8, 0u8]);
        }
        assert(join_nl(t) =~= Seq::<char>::empty());
    } else {
        assert(body == join_wire(t) + zeros(k));
        assert(words_latin1(t)) by {
            assert forall|i: int, j: int|
                0 <= i < t.len() && 0 <= j < t[i].len() implies 0 < (#[trigger] t[i][j]) as u32
                <= 255 by {
                assert(t[i] == ws[i]);
                assert(t[i][j] == ws[i][j]);
            }
        }
        if k == 0 {
            lemma_join_wire_last(t);
            assert(body =~= join_wire(t));
            assert(body.len() > 0);
            assert(t.last().len() > 0);
            lemma_byte_char_roundtrip(t.last().last());
            assert(body.last() != 0);
            assert(encode_spec(s) =~= join_wire(t) + zeros(0) + seq![0u8, 0u8]);
            lemma_decode_wire(t, 0);
        } else {
            lemma_join_wire_last(t);
            assert(body.len() > 0);
            assert(body.last() == zeros(k)[k - 1]);
            assert(body.last() == 0);
            assert(body.drop_last() =~= join_wire(t) + zeros(k - 1));
            assert(encode_spec(s) =~= join_wire(t) + zeros(k - 1) + seq![0u8, 0u8]);
            lemma_decode_wire(t, k - 1);
        }
    }
}

} // verus!
