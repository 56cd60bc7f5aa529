//! Comments: a comment adds no token to the token sequence of a text and
//! moves no token to another line.

use vstd::prelude::*;
use crate::lexer::{
    digits, has_char, is_alpha, is_digit, lex, lex_from, lexeme_at, line_at, remaining,
    rest_of_line, unquoted, word_chars, Reading,
};
use crate::lexing::lemma_lexeme_bound;
use crate::runs::{
    lemma_digits_extended, lemma_digits_run, lemma_digits_shifted, lemma_rest_of_line_extended,
    lemma_rest_of_line_is, lemma_rest_of_line_run, lemma_rest_of_line_shifted, lemma_same_tail,
    lemma_unquoted_extended, lemma_unquoted_run, lemma_unquoted_shifted,
    lemma_word_chars_extended, lemma_word_chars_run, lemma_word_chars_shifted, same_tail,
};

verus! {

/// A comment yields no token. Where `//` stands at the start of a lexeme,
/// the token sequence from there is the token sequence from the end of the
/// line: the comment runs up to the next line break or the end of the text,
/// and holds no line break.
pub proof fn lemma_comment_skipped(
    source: Seq<char>,
    pos: int,
    read: spec_fn(Seq<char>) -> Reading,
)
    requires
        has_char(source, pos, '/'),
        has_char(source, pos + 1, '/'),
    ensures
        ({
            let end = pos + 2 + rest_of_line(source, pos + 2);
            &&& lex_from(source, pos, read) == lex_from(source, end, read)
            &&& end <= source.len()
            &&& end < source.len() ==> source[end] == '\n'
            &&& forall|i: int| pos <= i < end ==> source[i] != '\n'
            &&& line_at(source, end) == line_at(source, pos)
        }),
{
    lemma_rest_of_line_run(source, pos + 2);
    let end = pos + 2 + rest_of_line(source, pos + 2);
    lemma_same_line(source, pos, end);
}

/// Positions with no line break between them lie on the same line.
pub proof fn lemma_same_line(source: Seq<char>, from: int, to: int)
    requires
        0 <= from <= to <= source.len(),
        forall|i: int| from <= i < to ==> source[i] != '\n',
    ensures
        line_at(source, to) == line_at(source, from),
    decreases to - from,
{
    if from < to {
        lemma_same_line(source, from, to - 1);
    }
}

/// Text added behind `text` moves no position of `text` to another line.
proof fn lemma_line_extended(text: Seq<char>, more: Seq<char>, pos: int)
    requires
        0 <= pos <= text.len(),
    ensures
        line_at(text + more, pos) == line_at(text, pos),
    decreases pos,
{
    if pos > 0 {
        lemma_line_extended(text, more, pos - 1);
        assert((text + more)[pos - 1] == text[pos - 1]);
    }
}

/// In texts that read the same from two positions on the same line, what
/// lies equally far behind the two positions lies on the same line.
proof fn lemma_line_shifted(first: Seq<char>, p: int, second: Seq<char>, q: int, by: int)
    requires
        same_tail(first, p, second, q),
        line_at(first, p) == line_at(second, q),
        0 <= by <= first.len() - p,
    ensures
        line_at(first, p + by) == line_at(second, q + by),
    decreases by,
{
    lemma_same_tail(first, p, second, q, 0);
    if by > 0 {
        lemma_line_shifted(first, p, second, q, by - 1);
        lemma_same_tail(first, p, second, q, by - 1);
    }
}

/// Texts that read the same from two positions hold the same stretch at the
/// same distance behind them.
proof fn lemma_stretch_shifted(
    first: Seq<char>,
    p: int,
    second: Seq<char>,
    q: int,
    from: int,
    to: int,
)
    requires
        same_tail(first, p, second, q),
        0 <= from <= to <= first.len() - p,
    ensures
        first.subrange(p + from, p + to) == second.subrange(q + from, q + to),
{
    lemma_same_tail(first, p, second, q, 0);
    let one = first.subrange(p, first.len() as int);
    let two = second.subrange(q, second.len() as int);
    assert(first.subrange(p + from, p + to) =~= one.subrange(from, to));
    assert(second.subrange(q + from, q + to) =~= two.subrange(from, to));
}

/// Texts that read the same from two positions have the same lexeme there.
proof fn lemma_lexeme_shifted(first: Seq<char>, p: int, second: Seq<char>, q: int)
    requires
        same_tail(first, p, second, q),
        p < first.len(),
    ensures
        lexeme_at(first, p) == lexeme_at(second, q),
{
    let room = first.len() - p;
    lemma_same_tail(first, p, second, q, 0);
    lemma_same_tail(first, p, second, q, 1);
    let c = first[p];
    if room >= 2 {
        lemma_same_tail(first, p, second, q, 2);
    }
    if c == '/' {
        if room >= 2 {
            lemma_rest_of_line_shifted(first, p + 2, second, q + 2);
        }
    } else if c == '"' {
        lemma_unquoted_shifted(first, p + 1, second, q + 1);
        lemma_unquoted_run(first, p + 1);
        let inner = unquoted(first, p + 1);
        lemma_stretch_shifted(first, p, second, q, 1, (1 + inner) as int);
    } else if is_digit(c) {
        lemma_digits_shifted(first, p + 1, second, q + 1);
        lemma_digits_run(first, p + 1);
        let whole = 1 + digits(first, p + 1);
        lemma_same_tail(first, p, second, q, whole as int);
        if whole + 1 <= room {
            lemma_same_tail(first, p, second, q, (whole + 1) as int);
            lemma_digits_shifted(first, p + whole + 1, second, q + whole + 1);
        }
    } else if is_alpha(c) || c == '_' {
        lemma_word_chars_shifted(first, p + 1, second, q + 1);
        lemma_word_chars_run(first, p + 1);
        let len = 1 + word_chars(first, p + 1);
        lemma_stretch_shifted(first, p, second, q, 0, len as int);
    }
}

/// Texts that read the same from two positions on the same line have the
/// same token sequence from there: the same tokens on the same lines, or
/// the same error.
pub proof fn lemma_lex_shifted(
    first: Seq<char>,
    p: int,
    second: Seq<char>,
    q: int,
    read: spec_fn(Seq<char>) -> Reading,
)
    requires
        same_tail(first, p, second, q),
        line_at(first, p) == line_at(second, q),
    ensures
        lex_from(first, p, read) == lex_from(second, q, read),
    decreases remaining(first, p),
{
    lemma_same_tail(first, p, second, q, 0);
    if p < first.len() {
        lemma_lexeme_shifted(first, p, second, q);
        lemma_lexeme_bound(first, p);
        let len = lexeme_at(first, p).len as int;
        lemma_same_tail(first, p, second, q, len);
        lemma_line_shifted(first, p, second, q, len);
        lemma_stretch_shifted(first, p, second, q, 0, len);
        lemma_lex_shifted(first, p + len, second, q + len, read);
    }
}

/// One lexeme on: two texts that have the same lexeme at `p`, made of the
/// same characters and ending on the same line, and the same token sequence
/// behind it, have the same token sequence from `p`.
proof fn lemma_lex_step(
    first: Seq<char>,
    second: Seq<char>,
    p: int,
    read: spec_fn(Seq<char>) -> Reading,
)
    requires
        0 <= p < first.len(),
        p < second.len(),
        lexeme_at(first, p) == lexeme_at(second, p),
        ({
            let end = p + lexeme_at(first, p).len;
            &&& first.subrange(p, end) == second.subrange(p, end)
            &&& line_at(first, end) == line_at(second, end)
            &&& lex_from(first, end, read) == lex_from(second, end, read)
        }),
    ensures
        lex_from(first, p, read) == lex_from(second, p, read),
{
}

/// Text added behind `text` leaves a lexeme of `text` as it is, if the
/// added text starts with a blank or a line break or is empty. The lexeme
/// is no error; if it is a comment, it ends before the end of `text` or the
/// added text does not go on with its line.
proof fn lemma_lexeme_extended(text: Seq<char>, more: Seq<char>, p: int)
    requires
        0 <= p < text.len(),
        more.len() == 0 || more[0] == ' ' || more[0] == '\n',
        !(lexeme_at(text, p).lexeme is Invalid),
        has_char(text, p, '/') && has_char(text, p + 1, '/') ==> p + lexeme_at(text, p).len
            < text.len() || more.len() == 0 || more[0] == '\n',
    ensures
        lexeme_at(text + more, p) == lexeme_at(text, p),
{
    let whole_text = text + more;
    let n = text.len() as int;
    lemma_lexeme_bound(text, p);
    assert(whole_text[p] == text[p]);
    if p + 1 < n {
        assert(whole_text[p + 1] == text[p + 1]);
    } else if more.len() > 0 {
        assert(whole_text[p + 1] == more[0]);
    }
    let c = text[p];
    if c == '/' {
        if has_char(text, p + 1, '/') {
            lemma_rest_of_line_extended(text, more, p + 2);
        }
    } else if c == '"' {
        lemma_unquoted_run(text, p + 1);
        lemma_unquoted_extended(text, more, p + 1);
        let inner = unquoted(text, p + 1);
        assert(whole_text.subrange(p + 1, p + 1 + inner) =~= text.subrange(p + 1, p + 1 + inner));
    } else if is_digit(c) {
        lemma_digits_run(text, p + 1);
        lemma_digits_extended(text, more, p + 1);
        let whole = 1 + digits(text, p + 1);
        if p + whole < n {
            assert(whole_text[p + whole] == text[p + whole]);
        } else if more.len() > 0 {
            assert(whole_text[p + whole] == more[0]);
        }
        if p + whole + 1 < n {
            assert(whole_text[p + whole + 1] == text[p + whole + 1]);
        } else if p + whole + 1 == n && more.len() > 0 {
            assert(whole_text[p + whole + 1] == more[0]);
        }
        if p + whole + 1 <= n {
            lemma_digits_extended(text, more, p + whole + 1);
        }
    } else if is_alpha(c) || c == '_' {
        lemma_word_chars_run(text, p + 1);
        lemma_word_chars_extended(text, more, p + 1);
        let len = 1 + word_chars(text, p + 1);
        assert(whole_text.subrange(p, p + len) =~= text.subrange(p, p + len));
    }
}

/// The text `before`, then a blank and a comment that holds `comment`, then
/// `after`.
pub open spec fn with_comment(before: Seq<char>, comment: Seq<char>, after: Seq<char>) -> Seq<
    char,
> {
    before + seq![' ', '/', '/'] + comment + after
}

/// Behind `before`, the blank and the comment are passed over: the token
/// sequence from the end of `before` is the same with and without them.
proof fn lemma_comment_passed(
    before: Seq<char>,
    comment: Seq<char>,
    after: Seq<char>,
    read: spec_fn(Seq<char>) -> Reading,
)
    requires
        forall|i: int| 0 <= i < comment.len() ==> comment[i] != '\n',
        after.len() == 0 || after[0] == '\n',
    ensures
        ({
            let n = before.len() as int;
            let long = with_comment(before, comment, after);
            let end = n + 3 + comment.len();
            &&& lex_from(long, n, read) == lex_from(before + after, n, read)
            &&& lex_from(long, end, read) == lex_from(before + after, n, read)
            &&& rest_of_line(long, n + 3) == comment.len()
        }),
{
    let n = before.len() as int;
    let long = with_comment(before, comment, after);
    let short = before + after;
    let end = n + 3 + comment.len();
    assert(long.len() == end + after.len());
    assert(long[n] == ' ');
    assert(long[n + 1] == '/');
    assert(long[n + 2] == '/');
    assert forall|i: int| n + 3 <= i < end implies long[i] != '\n' by {
        assert(long[i] == comment[i - (n + 3)]);
    }
    if after.len() > 0 {
        assert(long[end] == after[0]);
    }
    lemma_rest_of_line_is(long, n + 3, comment.len());
    assert(lex_from(long, n, read) == lex_from(long, n + 1, read));
    assert(lex_from(long, n + 1, read) == lex_from(long, end, read));
    assert(long.subrange(end, long.len() as int) =~= after);
    assert(short.subrange(n, short.len() as int) =~= after);
    assert(long =~= before + (seq![' ', '/', '/'] + comment + after));
    lemma_line_extended(before, seq![' ', '/', '/'] + comment + after, n);
    lemma_line_extended(before, after, n);
    lemma_same_line(long, n, end);
    lemma_lex_shifted(long, end, short, n, read);
}

/// The induction behind [`lemma_comment_between`], over the lexemes of
/// `before`.
proof fn lemma_comment_from(
    before: Seq<char>,
    comment: Seq<char>,
    after: Seq<char>,
    p: int,
    read: spec_fn(Seq<char>) -> Reading,
)
    requires
        0 <= p <= before.len(),
        lex_from(before, p, read) is Ok,
        forall|i: int| 0 <= i < comment.len() ==> comment[i] != '\n',
        after.len() == 0 || after[0] == '\n',
    ensures
        lex_from(with_comment(before, comment, after), p, read) == lex_from(
            before + after,
            p,
            read,
        ),
    decreases before.len() - p,
{
    let n = before.len() as int;
    let long = with_comment(before, comment, after);
    let short = before + after;
    let added = seq![' ', '/', '/'] + comment + after;
    lemma_comment_passed(before, comment, after, read);
    if p < n {
        assert(long =~= before + added);
        assert(added[0] == ' ');
        let found = lexeme_at(before, p);
        let len = found.len as int;
        lemma_lexeme_bound(before, p);
        lemma_lexeme_extended(before, after, p);
        if has_char(before, p, '/') && has_char(before, p + 1, '/') && p + len == n {
            // A comment at the end of `before` runs on through the added one.
            lemma_rest_of_line_run(before, p + 2);
            let end = n + 3 + comment.len();
            assert(long[p] == before[p]);
            assert(long[p + 1] == before[p + 1]);
            assert forall|i: int| p + 2 <= i < end implies long[i] != '\n' by {
                if i < n {
                    assert(long[i] == before[i]);
                } else if i < n + 3 {
                    assert(long[i] == added[i - n]);
                } else {
                    assert(long[i] == comment[i - (n + 3)]);
                }
            }
            assert(long.len() == end + after.len());
            if after.len() > 0 {
                assert(long[end] == after[0]);
            }
            lemma_rest_of_line_is(long, p + 2, (end - (p + 2)) as nat);
            assert(lex_from(long, p, read) == lex_from(long, end, read));
            assert(lex_from(short, p, read) == lex_from(short, n, read));
        } else {
            lemma_lexeme_extended(before, added, p);
            lemma_line_extended(before, added, p + len);
            lemma_line_extended(before, after, p + len);
            assert(long.subrange(p, p + len) =~= before.subrange(p, p + len));
            assert(short.subrange(p, p + len) =~= before.subrange(p, p + len));
            lemma_comment_from(before, comment, after, p + len, read);
            lemma_lex_step(long, short, p, read);
        }
    }
}

/// A comment between two texts adds no token and moves no line. Let
/// `before` be a text that scans without error, `comment` a text without a
/// line break, and `after` a text that is empty or starts with a line
/// break. Then `before`, a blank, `//`, `comment` and `after` in a row have
/// the token sequence of `before` and `after` in a row: the same tokens with
/// the same lexemes on the same lines, or the same error.
pub proof fn lemma_comment_between(
    before: Seq<char>,
    comment: Seq<char>,
    after: Seq<char>,
    read: spec_fn(Seq<char>) -> Reading,
)
    requires
        lex(before, read) is Ok,
        forall|i: int| 0 <= i < comment.len() ==> comment[i] != '\n',
        after.len() == 0 || after[0] == '\n',
    ensures
        lex(with_comment(before, comment, after), read) == lex(before + after, read),
{
    lemma_comment_from(before, comment, after, 0, read);
}

} // verus!
