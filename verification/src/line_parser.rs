//! The request line: its first line, its tokens, and the method and path that
//! the relay acts on.

use crate::slicing::{byte_offset, encoded_len, lemma_byte_offset_step, slice_between};
use crate::text::{
    first_line, is_space, is_whitespace, lemma_line_end_unique, lemma_lines_after_line,
    lemma_tokens_after_space, lemma_tokens_after_word, lines, tokens,
};
use vstd::prelude::*;
use vstd::std_specs::iter::IteratorSpec;
use vstd::string::*;
use vstd::utf8::*;

verus! {

broadcast use vstd::string::group_string_axioms;

/// The method and the path of a request, as its request line spells them.
#[derive(Debug, Clone, PartialEq, Eq)]
pub struct RequestLine {
    pub method: String,
    pub path: String,
}

/// Why no method and path could be taken from a request.
#[derive(Debug, Clone, Copy, PartialEq, Eq)]
pub enum ParseError {
    /// The first line holds fewer than two tokens.
    MalformedRequestLine,
}

/// The method and the path that `text` asks for: the first two tokens of its
/// first line, where that line has two.
pub open spec fn method_and_path(text: Seq<char>) -> Option<(Seq<char>, Seq<char>)> {
    let parts = tokens(first_line(text));
    if parts.len() >= 2 {
        Some((parts[0], parts[1]))
    } else {
        None
    }
}

/// Whether `parsed` is what parsing `text` has to give.
pub open spec fn parses_to(text: Seq<char>, parsed: Result<RequestLine, ParseError>) -> bool {
    match parsed {
        Ok(line) => method_and_path(text) == Some((line.method@, line.path@)),
        Err(_) => method_and_path(text) is None,
    }
}

/// What lenient decoding makes of `bytes` that are not well-formed UTF-8: each
/// malformed sequence becomes U+FFFD, and what is well formed is decoded as it
/// stands.
pub uninterp spec fn lossy_text(bytes: Seq<u8>) -> Seq<char>;

/// The text that a raw message is read as. Well-formed UTF-8 reads as the
/// characters that it encodes; other bytes read as `lossy_text` has them.
pub open spec fn message_text(bytes: Seq<u8>) -> Seq<char> {
    if valid_utf8(bytes) {
        decode_utf8(bytes)
    } else {
        lossy_text(bytes)
    }
}

/// Decodes `bytes` with `String::from_utf8_lossy`.
///
/// Trusted: well-formed UTF-8 comes back as the characters that it encodes,
/// and for any other bytes the result depends on the bytes alone.
#[verifier::external_body]
fn decode_lossy(bytes: &[u8]) -> (text: String)
    ensures
        text@ == (if valid_utf8(bytes@) {
            decode_utf8(bytes@)
        } else {
            lossy_text(bytes@)
        }),
{
    String::from_utf8_lossy(bytes).into_owned()
}

/// Returns the first line of `input`, without its line terminator.
///
/// An empty `input` has an empty first line.
pub fn get_first(input: &str) -> (line: &str)
    ensures
        line@ == first_line(input@),
{
    let total: usize = input.as_bytes().len();
    let mut chars = input.chars();
    let mut end_byte: usize = 0;
    let mut after_cr = false;
    let mut found = false;
    let ghost mut end: int = 0;
    proof {
        assert(input@.take(0) =~= Seq::<char>::empty());
        assert(input@.skip(0) =~= input@);
    }
    loop
        invariant_except_break
            !found,
            chars.remaining() == input@.skip(end),
        invariant
            0 <= end <= input@.len(),
            total == encode_utf8(input@).len(),
            end_byte == byte_offset(input@, end),
            end_byte <= total,
            forall|j: int| 0 <= j < end ==> input@[j] != '\n',
            after_cr == (end > 0 && input@[end - 1] == '\r'),
        ensures
            found ==> end < input@.len() && input@[end] == '\n',
            !found ==> end == input@.len(),
        decreases input@.len() - end,
    {
        match chars.next() {
            None => {
                break;
            },
            Some(c) => {
                if c == '\n' {
                    found = true;
                    break;
                }
                proof {
                    lemma_byte_offset_step(input@, end);
                    assert(input@.skip(end).drop_first() =~= input@.skip(end + 1));
                }
                end_byte = end_byte + encoded_len(c);
                after_cr = c == '\r';
                proof {
                    end = end + 1;
                }
            },
        }
    }
    proof {
        lemma_line_end_unique(input@, end);
    }
    if found && after_cr {
        proof {
            lemma_byte_offset_step(input@, end - 1);
        }
        slice_between(input, 0, end_byte - 1, Ghost(0), Ghost(end - 1))
    } else {
        slice_between(input, 0, end_byte, Ghost(0), Ghost(end))
    }
}

/// Splits `line` at white space and returns its tokens in order.
///
/// Runs of white space count as one separator, and white space at either end
/// yields no empty token.
pub fn get_parts(line: &str) -> (parts: Vec<&str>)
    ensures
        parts.deep_view() == tokens(line@),
{
    let total: usize = line.as_bytes().len();
    let mut chars = line.chars();
    let mut parts: Vec<&str> = Vec::new();
    let mut pos: usize = 0;
    let mut start_byte: usize = 0;
    let mut in_word = false;
    let ghost mut at: int = 0;
    let ghost mut start: int = 0;
    let ghost mut done: Seq<Seq<char>> = Seq::empty();
    proof {
        assert(line@.take(0) =~= Seq::<char>::empty());
        assert(line@.skip(0) =~= line@);
    }
    loop
        invariant_except_break
            chars.remaining() == line@.skip(at),
        invariant
            0 <= start <= at <= line@.len(),
            total == encode_utf8(line@).len(),
            pos == byte_offset(line@, at),
            start_byte == byte_offset(line@, start),
            pos <= total,
            in_word == (start < at),
            forall|j: int| start <= j < at ==> !is_space(line@[j]),
            tokens(line@) == done + tokens(line@.skip(start)),
            done.len() == parts@.len(),
            forall|k: int| 0 <= k < done.len() ==> (#[trigger] parts@[k])@ == done[k],
        ensures
            at == line@.len(),
        decreases line@.len() - at,
    {
        match chars.next() {
            None => {
                break;
            },
            Some(c) => {
                proof {
                    lemma_byte_offset_step(line@, at);
                    assert(line@.skip(at).drop_first() =~= line@.skip(at + 1));
                }
                let next: usize = pos + encoded_len(c);
                if is_whitespace(c) {
                    if in_word {
                        let word = slice_between(line, start_byte, pos, Ghost(start), Ghost(at));
                        parts.push(word);
                        proof {
                            lemma_tokens_after_word(line@, start, at);
                            done = done.push(word@);
                        }
                    }
                    proof {
                        lemma_tokens_after_space(line@, at);
                        start = at + 1;
                    }
                    start_byte = next;
                    in_word = false;
                } else {
                    in_word = true;
                }
                pos = next;
                proof {
                    at = at + 1;
                }
            },
        }
    }
    if in_word {
        let word = slice_between(line, start_byte, pos, Ghost(start), Ghost(at));
        parts.push(word);
        proof {
            lemma_tokens_after_word(line@, start, at);
            done = done.push(word@);
            start = at;
        }
    }
    proof {
        assert(line@.skip(at) =~= Seq::<char>::empty());
        assert(parts.deep_view() =~= done);
    }
    parts
}

/// Splits `text` into its lines, in order and without their terminators.
pub fn get_lines(text: &str) -> (all: Vec<&str>)
    ensures
        all.deep_view() == lines(text@),
{
    let total: usize = text.as_bytes().len();
    let mut chars = text.chars();
    let mut all: Vec<&str> = Vec::new();
    let mut pos: usize = 0;
    let mut start_byte: usize = 0;
    let mut after_cr = false;
    let mut pending = false;
    let ghost mut at: int = 0;
    let ghost mut start: int = 0;
    let ghost mut done: Seq<Seq<char>> = Seq::empty();
    proof {
        assert(text@.take(0) =~= Seq::<char>::empty());
        assert(text@.skip(0) =~= text@);
    }
    loop
        invariant_except_break
            chars.remaining() == text@.skip(at),
        invariant
            0 <= start <= at <= text@.len(),
            total == encode_utf8(text@).len(),
            pos == byte_offset(text@, at),
            start_byte == byte_offset(text@, start),
            pos <= total,
            pending == (start < at),
            after_cr == (start < at && text@[at - 1] == '\r'),
            forall|j: int| start <= j < at ==> text@[j] != '\n',
            lines(text@) == done + lines(text@.skip(start)),
            done.len() == all@.len(),
            forall|k: int| 0 <= k < done.len() ==> (#[trigger] all@[k])@ == done[k],
        ensures
            at == text@.len(),
        decreases text@.len() - at,
    {
        match chars.next() {
            None => {
                break;
            },
            Some(c) => {
                proof {
                    lemma_byte_offset_step(text@, at);
                    assert(text@.skip(at).drop_first() =~= text@.skip(at + 1));
                }
                let next: usize = pos + encoded_len(c);
                if c == '\n' {
                    proof {
                        lemma_lines_after_line(text@, start, at);
                    }
                    let line = if after_cr {
                        proof {
                            lemma_byte_offset_step(text@, at - 1);
                        }
                        slice_between(text, start_byte, pos - 1, Ghost(start), Ghost(at - 1))
                    } else {
                        slice_between(text, start_byte, pos, Ghost(start), Ghost(at))
                    };
                    all.push(line);
                    proof {
                        done = done.push(line@);
                        start = at + 1;
                    }
                    start_byte = next;
                    pending = false;
                    after_cr = false;
                } else {
                    pending = true;
                    after_cr = c == '\r';
                }
                pos = next;
                proof {
                    at = at + 1;
                }
            },
        }
    }
    if pending {
        proof {
            lemma_lines_after_line(text@, start, at);
        }
        let line = slice_between(text, start_byte, pos, Ghost(start), Ghost(at));
        all.push(line);
        proof {
            done = done.push(line@);
        }
    } else {
        proof {
            assert(text@.skip(start) =~= Seq::<char>::empty());
        }
    }
    proof {
        assert(all.deep_view() =~= done);
    }
    all
}

/// Takes method and path from the first line of `text`.
///
/// Fails exactly when that line has fewer than two tokens. Both tokens are
/// returned as they stand, with no decoding or normalisation.
pub fn parse_request_line(text: &str) -> (parsed: Result<RequestLine, ParseError>)
    ensures
        parses_to(text@, parsed),
{
    let parts = get_parts(get_first(text));
    if parts.len() < 2 {
        return Err(ParseError::MalformedRequestLine);
    }
    let method = parts[0].to_owned();
    let path = parts[1].to_owned();
    Ok(RequestLine { method, path })
}

/// Takes method and path from the first line of a raw message.
///
/// The bytes are decoded leniently, so no byte sequence is rejected for its
/// encoding: the only failure is a first line with fewer than two tokens.
pub fn parse_first_line(bytes: &[u8]) -> (parsed: Result<RequestLine, ParseError>)
    ensures
        parses_to(message_text(bytes@), parsed),
{
    let text = decode_lossy(bytes);
    parse_request_line(text.as_str())
}

} // verus!
