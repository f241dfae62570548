//! Characters and lines: the vocabulary that the request line parser and the
//! blocklist loader share.

use vstd::prelude::*;

verus! {

/// The characters with the Unicode `White_Space` property.
pub open spec fn is_space(c: char) -> bool {
    let u = c as u32;
    ||| 0x09 <= u <= 0x0D
    ||| u == 0x20
    ||| u == 0x85
    ||| u == 0xA0
    ||| u == 0x1680
    ||| 0x2000 <= u <= 0x200A
    ||| u == 0x2028
    ||| u == 0x2029
    ||| u == 0x202F
    ||| u == 0x205F
    ||| u == 0x3000
}

/// Tells whether `c` separates tokens.
pub fn is_whitespace(c: char) -> (b: bool)
    ensures
        b == is_space(c),
{
    let u: u32 = c as u32;
    (0x09 <= u && u <= 0x0D) || u == 0x20 || u == 0x85 || u == 0xA0 || u == 0x1680 || (0x2000 <= u
        && u <= 0x200A) || u == 0x2028 || u == 0x2029 || u == 0x202F || u == 0x205F || u == 0x3000
}

/// The position of the first line feed in `s`, or the length of `s` where it
/// holds none.
pub open spec fn line_end(s: Seq<char>) -> int
    decreases s.len(),
{
    if s.len() == 0 || s[0] == '\n' {
        0
    } else {
        1 + line_end(s.drop_first())
    }
}

/// The first line of `s`, without its terminator.
///
/// A line ends at the first line feed. A carriage return directly before that
/// line feed belongs to the terminator; one at the end of a text that has no
/// line feed belongs to the line. A text without characters has an empty first
/// line.
pub open spec fn first_line(s: Seq<char>) -> Seq<char> {
    let end = line_end(s);
    if 0 < end < s.len() && s[end - 1] == '\r' {
        s.take(end - 1)
    } else {
        s.take(end)
    }
}

/// What follows the first line of `s` and its terminator.
pub open spec fn after_first_line(s: Seq<char>) -> Seq<char> {
    if line_end(s) < s.len() {
        s.skip(line_end(s) + 1)
    } else {
        Seq::empty()
    }
}

/// The lines of `s`, in order. A line feed at the very end starts no further
/// line, so a text without characters has no lines at all.
pub open spec fn lines(s: Seq<char>) -> Seq<Seq<char>>
    decreases s.len(),
{
    if s.len() == 0 {
        Seq::empty()
    } else {
        proof {
            lemma_line_end(s);
        }
        seq![first_line(s)] + lines(after_first_line(s))
    }
}

/// The number of characters at the start of `s` before its first white space.
pub open spec fn word_len(s: Seq<char>) -> int
    decreases s.len(),
{
    if s.len() == 0 || is_space(s[0]) {
        0
    } else {
        1 + word_len(s.drop_first())
    }
}

/// The tokens of `s`: its maximal runs of characters that are not white space,
/// in order.
pub open spec fn tokens(s: Seq<char>) -> Seq<Seq<char>>
    decreases s.len(),
{
    if s.len() == 0 {
        Seq::empty()
    } else if is_space(s[0]) {
        tokens(s.drop_first())
    } else {
        proof {
            lemma_word_len(s);
        }
        seq![s.take(word_len(s))] + tokens(s.skip(word_len(s)))
    }
}

/// `line_end` is the one position that has no line feed before it and is
/// either a line feed or the end of the text.
pub proof fn lemma_line_end(s: Seq<char>)
    ensures
        0 <= line_end(s) <= s.len(),
        forall|j: int| 0 <= j < line_end(s) ==> s[j] != '\n',
        line_end(s) < s.len() ==> s[line_end(s)] == '\n',
    decreases s.len(),
{
    if !(s.len() == 0 || s[0] == '\n') {
        let rest = s.drop_first();
        lemma_line_end(rest);
        assert forall|j: int| 0 <= j < line_end(s) implies s[j] != '\n' by {
            if j > 0 {
                assert(s[j] == rest[j - 1]);
            }
        }
        assert(line_end(s) < s.len() ==> s[line_end(s)] == rest[line_end(rest)]);
    }
}

/// Any position with the two properties of `lemma_line_end` is `line_end`.
pub proof fn lemma_line_end_unique(s: Seq<char>, k: int)
    requires
        0 <= k <= s.len(),
        forall|j: int| 0 <= j < k ==> s[j] != '\n',
        k < s.len() ==> s[k] == '\n',
    ensures
        line_end(s) == k,
    decreases s.len(),
{
    if k > 0 {
        let rest = s.drop_first();
        assert(s[0] != '\n');
        assert forall|j: int| 0 <= j < k - 1 implies rest[j] != '\n' by {
            assert(rest[j] == s[j + 1]);
        }
        assert(k - 1 < rest.len() ==> rest[k - 1] == s[k]);
        lemma_line_end_unique(rest, k - 1);
    }
}

/// `word_len` is the one position that has no white space before it and is
/// either white space or the end of the text.
pub proof fn lemma_word_len(s: Seq<char>)
    ensures
        0 <= word_len(s) <= s.len(),
        forall|j: int| 0 <= j < word_len(s) ==> !is_space(s[j]),
        word_len(s) < s.len() ==> is_space(s[word_len(s)]),
    decreases s.len(),
{
    if !(s.len() == 0 || is_space(s[0])) {
        let rest = s.drop_first();
        lemma_word_len(rest);
        assert forall|j: int| 0 <= j < word_len(s) implies !is_space(s[j]) by {
            if j > 0 {
                assert(s[j] == rest[j - 1]);
            }
        }
        assert(word_len(s) < s.len() ==> s[word_len(s)] == rest[word_len(rest)]);
    }
}

/// Any position with the two properties of `lemma_word_len` is `word_len`.
pub proof fn lemma_word_len_unique(s: Seq<char>, k: int)
    requires
        0 <= k <= s.len(),
        forall|j: int| 0 <= j < k ==> !is_space(s[j]),
        k < s.len() ==> is_space(s[k]),
    ensures
        word_len(s) == k,
    decreases s.len(),
{
    if k > 0 {
        let rest = s.drop_first();
        assert(!is_space(s[0]));
        assert forall|j: int| 0 <= j < k - 1 implies !is_space(rest[j]) by {
            assert(rest[j] == s[j + 1]);
        }
        assert(k - 1 < rest.len() ==> rest[k - 1] == s[k]);
        lemma_word_len_unique(rest, k - 1);
    }
}

/// White space contributes nothing to the tokens that follow it.
pub proof fn lemma_tokens_after_space(s: Seq<char>, at: int)
    requires
        0 <= at < s.len(),
        is_space(s[at]),
    ensures
        tokens(s.skip(at)) == tokens(s.skip(at + 1)),
{
    assert(s.skip(at).drop_first() =~= s.skip(at + 1));
}

/// A run without white space that ends at white space, or at the end of the
/// text, is the next token.
pub proof fn lemma_tokens_after_word(s: Seq<char>, start: int, end: int)
    requires
        0 <= start < end <= s.len(),
        forall|j: int| start <= j < end ==> !is_space(s[j]),
        end < s.len() ==> is_space(s[end]),
    ensures
        tokens(s.skip(start)) == seq![s.subrange(start, end)] + tokens(s.skip(end)),
{
    let rest = s.skip(start);
    assert forall|j: int| 0 <= j < end - start implies !is_space(rest[j]) by {
        assert(rest[j] == s[start + j]);
    }
    lemma_word_len_unique(rest, end - start);
    assert(rest.take(end - start) =~= s.subrange(start, end));
    assert(rest.skip(end - start) =~= s.skip(end));
}

/// A stretch without line feed that ends at a line feed, or at the end of the
/// text, is the next line; what precedes the line feed is the line, less one
/// carriage return directly before it.
pub proof fn lemma_lines_after_line(s: Seq<char>, start: int, end: int)
    requires
        0 <= start <= end <= s.len(),
        start < s.len(),
        forall|j: int| start <= j < end ==> s[j] != '\n',
        end < s.len() ==> s[end] == '\n',
    ensures
        first_line(s.skip(start)) == if start < end < s.len() && s[end - 1] == '\r' {
            s.subrange(start, end - 1)
        } else {
            s.subrange(start, end)
        },
        lines(s.skip(start)) == seq![first_line(s.skip(start))] + lines(
            if end < s.len() {
                s.skip(end + 1)
            } else {
                Seq::empty()
            },
        ),
{
    let rest = s.skip(start);
    assert forall|j: int| 0 <= j < end - start implies rest[j] != '\n' by {
        assert(rest[j] == s[start + j]);
    }
    lemma_line_end_unique(rest, end - start);
    if start < end < s.len() && s[end - 1] == '\r' {
        assert(rest[end - start - 1] == s[end - 1]);
        assert(rest.take(end - start - 1) =~= s.subrange(start, end - 1));
    } else {
        if 0 < end - start < rest.len() {
            assert(rest[end - start - 1] == s[end - 1]);
        }
        assert(rest.take(end - start) =~= s.subrange(start, end));
    }
    if end < s.len() {
        assert(rest.skip(end - start + 1) =~= s.skip(end + 1));
    }
}

} // verus!
