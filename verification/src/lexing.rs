//! What holds of the token sequence of a text: that a lexeme is what its
//! own characters make it, and that the lexemes of tokens other than
//! strings, written one after the other, scan to the same tokens again:
//! always with blanks between them, and without blanks exactly if no lexeme
//! runs on into the next.

use vstd::prelude::*;
use crate::error::SpecError;
use crate::lexer::{
    digits, is_alpha, is_digit, is_word, lex, lex_from, lexeme_at, remaining, scan_from,
    token_at, unquoted, word_chars, Lexeme, Reading, Stop,
};
use crate::runs::{
    lemma_digits_is, lemma_digits_run, lemma_rest_of_line_run, lemma_unquoted_is,
    lemma_unquoted_run, lemma_word_chars_is, lemma_word_chars_run,
};
use crate::token::{SpecToken, SpecTokenType};

verus! {

/// The lexemes of `tokens`, written one after the other with nothing
/// between them.
pub open spec fn joined(tokens: Seq<SpecToken>) -> Seq<char>
    decreases tokens.len(),
{
    if tokens.len() == 0 {
        Seq::empty()
    } else {
        tokens[0].lexeme + joined(tokens.drop_first())
    }
}

/// In `text`, from `at` on, no lexeme runs on into the next: the lexemes
/// that the scanner finds there are, one by one, as long as the lexemes of
/// `tokens`.
pub open spec fn keeps_apart(text: Seq<char>, tokens: Seq<SpecToken>, at: int) -> bool
    decreases tokens.len(),
{
    if tokens.len() == 0 {
        true
    } else {
        &&& at < text.len()
        &&& lexeme_at(text, at).len == tokens[0].lexeme.len()
        &&& keeps_apart(text, tokens.drop_first(), at + tokens[0].lexeme.len())
    }
}

/// No token of the sequence is a string. A string's lexeme is the text
/// between its quotes, which does not scan to the string again.
pub open spec fn string_free(tokens: Seq<SpecToken>) -> bool {
    forall|i: int| 0 <= i < tokens.len() ==> !((#[trigger] tokens[i]).token_type is String)
}

/// Two token sequences agree in everything but the lines: token for token
/// they have the same type, payload and all, and the same lexeme.
pub open spec fn same_lexemes(a: Seq<SpecToken>, b: Seq<SpecToken>) -> bool {
    &&& a.len() == b.len()
    &&& forall|i: int|
        0 <= i < a.len() ==> (#[trigger] a[i]).token_type == b[i].token_type && a[i].lexeme
            == b[i].lexeme
}

/// A lexeme ends inside the text.
pub proof fn lemma_lexeme_bound(source: Seq<char>, start: int)
    requires
        0 <= start < source.len(),
    ensures
        1 <= lexeme_at(source, start).len,
        start + lexeme_at(source, start).len <= source.len(),
{
    lemma_digits_run(source, start + 1);
    let whole = 1 + digits(source, start + 1);
    if start + whole + 1 < source.len() {
        lemma_digits_run(source, start + whole + 1);
    }
    lemma_word_chars_run(source, start + 1);
    lemma_unquoted_run(source, start + 1);
    if start + 2 <= source.len() {
        lemma_rest_of_line_run(source, start + 2);
    }
}

/// What a lexeme is shows in its own characters: two lexemes of the same
/// length that are made of the same characters are the same, wherever they
/// stand and whatever follows them.
pub proof fn lemma_lexeme_local(first: Seq<char>, p: int, second: Seq<char>, q: int)
    requires
        0 <= p < first.len(),
        0 <= q < second.len(),
        lexeme_at(first, p).len == lexeme_at(second, q).len,
        first.subrange(p, p + lexeme_at(first, p).len) == second.subrange(
            q,
            q + lexeme_at(second, q).len,
        ),
    ensures
        lexeme_at(first, p).lexeme == lexeme_at(second, q).lexeme,
{
    lemma_lexeme_bound(first, p);
    lemma_lexeme_bound(second, q);
    let len = lexeme_at(first, p).len as int;
    let one = first.subrange(p, p + len);
    let two = second.subrange(q, q + len);
    assert(first[p] == one[0]);
    assert(second[q] == two[0]);
    if first[p] == '"' {
        lemma_unquoted_run(first, p + 1);
        lemma_unquoted_run(second, q + 1);
        let a = unquoted(first, p + 1) as int;
        let b = unquoted(second, q + 1) as int;
        if p + 1 + a < first.len() {
            // The first string is closed: its last character is the quote.
            assert(first[p + 1 + a] == one[1 + a]);
            if q + 1 + b >= second.len() {
                assert(second[q + 1 + a] == two[1 + a]);
                assert(false);
            }
            assert(first.subrange(p + 1, p + 1 + a) =~= one.subrange(1, 1 + a));
            assert(second.subrange(q + 1, q + 1 + b) =~= two.subrange(1, 1 + b));
        } else if q + 1 + b < second.len() {
            assert(second[q + 1 + b] == two[1 + b]);
            assert(first[p + 1 + b] == one[1 + b]);
            assert(false);
        }
    }
}

/// The lexeme of a string token is its payload: the text strictly between
/// the quotes, with nothing in it processed.
pub proof fn lemma_string_lexemes(
    source: Seq<char>,
    pos: int,
    read: spec_fn(Seq<char>) -> Reading,
    i: int,
)
    requires
        lex_from(source, pos, read) is Ok,
        0 <= i < lex_from(source, pos, read)->Ok_0.len(),
    ensures
        lex_from(source, pos, read)->Ok_0[i].token_type matches SpecTokenType::String(text)
            ==> lex_from(source, pos, read)->Ok_0[i].lexeme == text,
    decreases remaining(source, pos),
{
    if 0 <= pos < source.len() {
        let found = lexeme_at(source, pos);
        let end = pos + found.len;
        if found.lexeme is Skip {
            lemma_string_lexemes(source, end, read, i);
        } else if i > 0 {
            lemma_string_lexemes(source, end, read, i - 1);
        }
    }
}

/// A token sequence is never empty: it ends in the terminal token.
proof fn lemma_lex_nonempty(source: Seq<char>, pos: int, read: spec_fn(Seq<char>) -> Reading)
    ensures
        lex_from(source, pos, read) matches Ok(tokens) ==> tokens.len() >= 1,
    decreases remaining(source, pos),
{
    if 0 <= pos < source.len() {
        let end = pos + lexeme_at(source, pos).len;
        lemma_lex_nonempty(source, end, read);
    }
}

/// `joined` of a token before a sequence is the token's lexeme before the
/// sequence's lexemes.
proof fn lemma_joined_first(first: SpecToken, rest: Seq<SpecToken>)
    ensures
        joined(seq![first] + rest) == first.lexeme + joined(rest),
{
    assert((seq![first] + rest).drop_first() == rest);
}

/// The induction behind [`lemma_rescan`]: the token sequence of `source`
/// from `p` on against that of `text` from `q` on, where `text` holds from
/// `q` on the lexemes of the former and nothing else.
proof fn lemma_rescan_from(
    source: Seq<char>,
    p: int,
    text: Seq<char>,
    q: int,
    read: spec_fn(Seq<char>) -> Reading,
    tokens: Seq<SpecToken>,
)
    requires
        0 <= p,
        0 <= q <= text.len(),
        lex_from(source, p, read) == Ok::<Seq<SpecToken>, SpecError>(tokens),
        string_free(tokens),
        text.subrange(q, text.len() as int) == joined(tokens.drop_last()),
        keeps_apart(text, tokens.drop_last(), q),
    ensures
        lex_from(text, q, read) matches Ok(again) && same_lexemes(again, tokens),
    decreases remaining(source, p),
{
    if p >= source.len() {
        assert(tokens.drop_last().len() == 0);
        assert(text.subrange(q, text.len() as int).len() == 0);
    } else {
        let found = lexeme_at(source, p);
        let end = p + found.len;
        lemma_lexeme_bound(source, p);
        lemma_lex_nonempty(source, end, read);
        if found.lexeme is Skip {
            lemma_rescan_from(source, end, text, q, read, tokens);
        } else {
            let bits = match read(source.subrange(p, end)) {
                Reading::Value(bits) => bits,
                Reading::Malformed(_) => 0,
            };
            let token_type = match found.lexeme {
                Lexeme::Token(token_type) => token_type,
                _ => SpecTokenType::Number(bits),
            };
            let first = token_at(source, p, end, token_type);
            let rest = lex_from(source, end, read)->Ok_0;
            assert(tokens == seq![first] + rest);
            assert(tokens[0] == first);
            assert(string_free(rest)) by {
                assert forall|i: int| 0 <= i < rest.len() implies !((#[trigger] rest[i]).token_type
                    is String) by {
                    assert(rest[i] == tokens[i + 1]);
                }
            }
            assert(tokens.drop_last() == seq![first] + rest.drop_last());
            lemma_joined_first(first, rest.drop_last());
            assert((seq![first] + rest.drop_last()).drop_first() == rest.drop_last());
            let len = found.len as int;
            let tail = text.subrange(q, text.len() as int);
            assert(tail.len() >= len);
            assert(text.subrange(q, q + len) =~= tail.subrange(0, len));
            assert(tail.subrange(0, len) =~= first.lexeme);
            assert(text.subrange(q + len, text.len() as int) =~= tail.subrange(
                len,
                tail.len() as int,
            ));
            assert(tail.subrange(len, tail.len() as int) =~= joined(rest.drop_last()));
            lemma_lexeme_local(source, p, text, q);
            lemma_rescan_from(source, end, text, q + len, read, rest);
            let again = lex_from(text, q + len, read)->Ok_0;
            let second = token_at(text, q, q + len, token_type);
            assert(lex_from(text, q, read) == Ok::<Seq<SpecToken>, SpecError>(
                seq![second] + again,
            ));
            assert(same_lexemes(seq![second] + again, tokens));
        }
    }
}

/// The lexemes of a token sequence, the terminal one left out, take up no
/// more text than there is from the place where the sequence starts.
proof fn lemma_joined_fits(text: Seq<char>, q: int, read: spec_fn(Seq<char>) -> Reading)
    requires
        0 <= q <= text.len(),
    ensures
        lex_from(text, q, read) matches Ok(tokens) ==> tokens.len() >= 1 && joined(
            tokens.drop_last(),
        ).len() <= text.len() - q,
    decreases remaining(text, q),
{
    if q < text.len() {
        let found = lexeme_at(text, q);
        let end = q + found.len;
        lemma_lexeme_bound(text, q);
        lemma_joined_fits(text, end, read);
        if let Ok(tokens) = lex_from(text, q, read) {
            if !(found.lexeme is Skip) {
                let rest = lex_from(text, end, read)->Ok_0;
                let first = tokens[0];
                assert(tokens == seq![first] + rest);
                assert(first.lexeme.len() <= found.len);
                assert(tokens.drop_last() == seq![first] + rest.drop_last());
                lemma_joined_first(first, rest.drop_last());
            }
        }
    } else {
        let tokens = lex_from(text, q, read)->Ok_0;
        assert(tokens.drop_last().len() == 0);
    }
}

/// Sequences with the same lexemes have the same lexemes written out.
proof fn lemma_joined_same(a: Seq<SpecToken>, b: Seq<SpecToken>)
    requires
        a.len() == b.len(),
        forall|i: int| 0 <= i < a.len() ==> (#[trigger] a[i]).lexeme == b[i].lexeme,
    ensures
        joined(a) == joined(b),
    decreases a.len(),
{
    if a.len() > 0 {
        lemma_joined_same(a.drop_first(), b.drop_first());
    }
}

/// The induction behind the converse in [`lemma_rescan`]: if `text` holds
/// from `q` on the lexemes of `tokens` and scans from there to a sequence
/// with those lexemes, then no lexeme runs on into the next.
proof fn lemma_apart_from(
    text: Seq<char>,
    q: int,
    read: spec_fn(Seq<char>) -> Reading,
    tokens: Seq<SpecToken>,
    again: Seq<SpecToken>,
)
    requires
        0 <= q <= text.len(),
        lex_from(text, q, read) == Ok::<Seq<SpecToken>, SpecError>(again),
        again.len() == tokens.len() + 1,
        forall|i: int|
            0 <= i < tokens.len() ==> (#[trigger] again[i]).lexeme == tokens[i].lexeme && !(
            again[i].token_type is String),
        text.subrange(q, text.len() as int) == joined(tokens),
    ensures
        keeps_apart(text, tokens, q),
    decreases remaining(text, q),
{
    if q < text.len() {
        let found = lexeme_at(text, q);
        let end = q + found.len;
        lemma_lexeme_bound(text, q);
        lemma_joined_fits(text, end, read);
        assert(forall|i: int|
            0 <= i < tokens.len() ==> (#[trigger] again.drop_last()[i]).lexeme
                == tokens[i].lexeme) by {
            assert forall|i: int| 0 <= i < tokens.len() implies (#[trigger] again.drop_last()[i])
                == again[i] by {}
        }
        lemma_joined_same(again.drop_last(), tokens);
        if found.lexeme is Skip {
            // The scan would pass over text that the lexemes account for.
            assert(joined(again.drop_last()).len() <= text.len() - end);
            assert(text.subrange(q, text.len() as int).len() == text.len() - q);
            assert(false);
        } else {
            let rest = lex_from(text, end, read)->Ok_0;
            let first = again[0];
            assert(again == seq![first] + rest);
            assert(first.lexeme == text.subrange(q, end));
            assert(rest.len() >= 1);
            assert(tokens.len() >= 1);
            let tail = text.subrange(q, text.len() as int);
            let len = found.len as int;
            assert(tokens[0].lexeme == first.lexeme);
            assert(tail.subrange(len, tail.len() as int) =~= joined(tokens.drop_first())) by {
                assert(tail == tokens[0].lexeme + joined(tokens.drop_first()));
            }
            assert(text.subrange(end, text.len() as int) =~= tail.subrange(
                len,
                tail.len() as int,
            ));
            assert forall|i: int| 0 <= i < tokens.drop_first().len() implies (
            #[trigger] rest[i]).lexeme == tokens.drop_first()[i].lexeme && !(rest[i].token_type
                is String) by {
                assert(rest[i] == again[i + 1]);
                assert(tokens.drop_first()[i] == tokens[i + 1]);
            }
            lemma_apart_from(text, end, read, tokens.drop_first(), rest);
        }
    } else {
        assert(again.len() == 1);
    }
}

/// Scanning the lexemes again gives the tokens again, unless lexemes run
/// together. Let `tokens` be the token sequence of `source`, with no string
/// among them, and let `text` be the lexemes of its tokens, the terminal one
/// left out, written one after the other. Then `text` scans to a sequence
/// that agrees with `tokens` in every type and lexeme, and so in every
/// category, exactly if in `text` no lexeme runs on into the next. Only the
/// lines may differ.
pub proof fn lemma_rescan(
    source: Seq<char>,
    read: spec_fn(Seq<char>) -> Reading,
    tokens: Seq<SpecToken>,
)
    requires
        lex(source, read) == Ok::<Seq<SpecToken>, SpecError>(tokens),
        string_free(tokens),
    ensures
        tokens.len() >= 1,
        keeps_apart(joined(tokens.drop_last()), tokens.drop_last(), 0) <==> (lex(
            joined(tokens.drop_last()),
            read,
        ) matches Ok(again) && same_lexemes(again, tokens)),
{
    lemma_lex_nonempty(source, 0, read);
    let text = joined(tokens.drop_last());
    assert(text.subrange(0, text.len() as int) == text);
    if keeps_apart(text, tokens.drop_last(), 0) {
        lemma_rescan_from(source, 0, text, 0, read, tokens);
    }
    if let Ok(again) = lex(text, read) {
        if same_lexemes(again, tokens) {
            assert forall|i: int| 0 <= i < tokens.drop_last().len() implies (
            #[trigger] again[i]).lexeme == tokens.drop_last()[i].lexeme && !(again[i].token_type
                is String) by {
                assert(tokens.drop_last()[i] == tokens[i]);
            }
            lemma_apart_from(text, 0, read, tokens.drop_last(), again);
        }
    }
}

/// Equal stretches of two texts hold the same character at the same place.
proof fn lemma_same_stretch(
    source: Seq<char>,
    p: int,
    text: Seq<char>,
    q: int,
    len: int,
    i: int,
)
    requires
        0 <= p,
        0 <= q,
        p + len <= source.len(),
        q + len <= text.len(),
        text.subrange(q, q + len) == source.subrange(p, p + len),
        0 <= i < len,
    ensures
        text[q + i] == source[p + i],
{
    assert(text[q + i] == text.subrange(q, q + len)[i]);
    assert(source[p + i] == source.subrange(p, p + len)[i]);
}

/// A lexeme keeps its length where it is written again before a blank or
/// at the end of a text: a token or numeric literal that takes up
/// `source[p..p + len]` is, in a text that holds the same characters from
/// `q` on and then a blank or nothing, the same lexeme of the same length.
pub proof fn lemma_lexeme_respaced(source: Seq<char>, p: int, text: Seq<char>, q: int)
    requires
        0 <= p < source.len(),
        0 <= q,
        lexeme_at(source, p).lexeme is Token || lexeme_at(source, p).lexeme is Numeral,
        q + lexeme_at(source, p).len <= text.len(),
        text.subrange(q, q + lexeme_at(source, p).len) == source.subrange(
            p,
            p + lexeme_at(source, p).len,
        ),
        q + lexeme_at(source, p).len == text.len() || text[q + lexeme_at(source, p).len] == ' ',
    ensures
        lexeme_at(text, q) == lexeme_at(source, p),
{
    lemma_lexeme_bound(source, p);
    let len = lexeme_at(source, p).len as int;
    lemma_same_stretch(source, p, text, q, len, 0);
    let c = source[p];
    if c == '"' {
        lemma_unquoted_run(source, p + 1);
        let inner = unquoted(source, p + 1);
        assert forall|i: int| q + 1 <= i < q + 1 + inner implies text[i] != '"' by {
            lemma_same_stretch(source, p, text, q, len, i - q);
        }
        lemma_same_stretch(source, p, text, q, len, (1 + inner) as int);
        lemma_unquoted_is(text, q + 1, inner);
    } else if is_digit(c) {
        lemma_digits_run(source, p + 1);
        let whole = 1 + digits(source, p + 1);
        assert forall|i: int| q + 1 <= i < q + whole implies is_digit(text[i]) by {
            lemma_same_stretch(source, p, text, q, len, i - q);
        }
        if whole < len {
            lemma_same_stretch(source, p, text, q, len, whole as int);
            lemma_same_stretch(source, p, text, q, len, (whole + 1) as int);
            lemma_digits_is(text, q + 1, (whole - 1) as nat);
            lemma_digits_run(source, p + whole + 1);
            let rest = digits(source, p + whole + 1);
            assert forall|i: int| q + whole + 1 <= i < q + whole + 1 + rest implies is_digit(
                text[i],
            ) by {
                lemma_same_stretch(source, p, text, q, len, i - q);
            }
            lemma_digits_is(text, q + whole + 1, rest);
        } else {
            lemma_digits_is(text, q + 1, (whole - 1) as nat);
        }
    } else if is_alpha(c) || c == '_' {
        lemma_word_chars_run(source, p + 1);
        let more = word_chars(source, p + 1);
        assert forall|i: int| q + 1 <= i < q + 1 + more implies is_word(
            text[i],
        ) by {
            lemma_same_stretch(source, p, text, q, len, i - q);
        }
        lemma_word_chars_is(text, q + 1, more);
    } else if len == 2 {
        lemma_same_stretch(source, p, text, q, len, 1);
    }
    assert(lexeme_at(text, q).len == len);
    lemma_lexeme_local(source, p, text, q);
}

/// The lexemes of `tokens`, written one after the other with one blank
/// between neighbours.
pub open spec fn spaced(tokens: Seq<SpecToken>) -> Seq<char>
    decreases tokens.len(),
{
    if tokens.len() == 0 {
        Seq::empty()
    } else if tokens.len() == 1 {
        tokens[0].lexeme
    } else {
        tokens[0].lexeme + seq![' '] + spaced(tokens.drop_first())
    }
}

/// The induction behind [`lemma_rescan_spaced`]: the token sequence of
/// `source` from `p` on against that of `text` from `q` on, where `text`
/// holds from `q` on the lexemes of the former with blanks between them.
proof fn lemma_respaced_from(
    source: Seq<char>,
    p: int,
    text: Seq<char>,
    q: int,
    read: spec_fn(Seq<char>) -> Reading,
    tokens: Seq<SpecToken>,
)
    requires
        0 <= p,
        0 <= q <= text.len(),
        lex_from(source, p, read) == Ok::<Seq<SpecToken>, SpecError>(tokens),
        string_free(tokens),
        text.subrange(q, text.len() as int) == spaced(tokens.drop_last()),
    ensures
        lex_from(text, q, read) matches Ok(again) && same_lexemes(again, tokens),
    decreases remaining(source, p),
{
    if p >= source.len() {
        assert(tokens.drop_last().len() == 0);
        assert(text.subrange(q, text.len() as int).len() == 0);
    } else {
        let found = lexeme_at(source, p);
        let end = p + found.len;
        lemma_lexeme_bound(source, p);
        lemma_lex_nonempty(source, end, read);
        if found.lexeme is Skip {
            lemma_respaced_from(source, end, text, q, read, tokens);
        } else {
            let bits = match read(source.subrange(p, end)) {
                Reading::Value(bits) => bits,
                Reading::Malformed(_) => 0,
            };
            let token_type = match found.lexeme {
                Lexeme::Token(token_type) => token_type,
                _ => SpecTokenType::Number(bits),
            };
            let first = token_at(source, p, end, token_type);
            let rest = lex_from(source, end, read)->Ok_0;
            assert(tokens == seq![first] + rest);
            assert(tokens[0] == first);
            assert(string_free(rest)) by {
                assert forall|i: int| 0 <= i < rest.len() implies !((#[trigger] rest[i]).token_type
                    is String) by {
                    assert(rest[i] == tokens[i + 1]);
                }
            }
            let written = tokens.drop_last();
            assert(written == seq![first] + rest.drop_last());
            assert(written.drop_first() == rest.drop_last());
            assert(written[0] == first);
            let len = found.len as int;
            let tail = text.subrange(q, text.len() as int);
            let blank: int = if rest.len() == 1 {
                0
            } else {
                1
            };
            assert(tail.len() >= len + blank);
            assert(text.subrange(q, q + len) =~= tail.subrange(0, len));
            assert(tail.subrange(0, len) =~= first.lexeme);
            if blank == 1 {
                assert(text[q + len] == tail[len]);
                assert(tail[len] == ' ');
            }
            assert(text.subrange(q + len + blank, text.len() as int) =~= tail.subrange(
                len + blank,
                tail.len() as int,
            ));
            assert(tail.subrange(len + blank, tail.len() as int) =~= spaced(rest.drop_last()));
            lemma_lexeme_respaced(source, p, text, q);
            lemma_respaced_from(source, end, text, q + len + blank, read, rest);
            let again = lex_from(text, q + len + blank, read)->Ok_0;
            assert(lex_from(text, q + len, read) == lex_from(text, q + len + blank, read));
            let second = token_at(text, q, q + len, token_type);
            assert(lex_from(text, q, read) == Ok::<Seq<SpecToken>, SpecError>(
                seq![second] + again,
            ));
            assert(same_lexemes(seq![second] + again, tokens));
        }
    }
}

/// Scanning the lexemes again, set apart by blanks, gives the tokens again.
/// Let `tokens` be the token sequence of `source`, with no string among
/// them, and let `text` be the lexemes of its tokens, the terminal one left
/// out, written with one blank between neighbours. Then `text` scans to a
/// sequence that agrees with `tokens` in every type and lexeme, and so in
/// every category; only the lines may differ.
pub proof fn lemma_rescan_spaced(
    source: Seq<char>,
    read: spec_fn(Seq<char>) -> Reading,
    tokens: Seq<SpecToken>,
)
    requires
        lex(source, read) == Ok::<Seq<SpecToken>, SpecError>(tokens),
        string_free(tokens),
    ensures
        lex(spaced(tokens.drop_last()), read) matches Ok(again) && same_lexemes(again, tokens),
{
    let text = spaced(tokens.drop_last());
    assert(text.subrange(0, text.len() as int) == text);
    lemma_respaced_from(source, 0, text, 0, read, tokens);
}

/// A run that stops at a numeric literal stops at a lexeme that is one: the
/// literal lies at or after the run's start and inside the text, and it is
/// not empty, so every question takes the scanner further.
pub proof fn lemma_scan_progress(source: Seq<char>, pos: int)
    requires
        0 <= pos,
    ensures
        scan_from(source, pos).stop matches Stop::Numeral { start, end } ==> {
            &&& pos <= start < end <= source.len()
            &&& lexeme_at(source, start).lexeme is Numeral
            &&& end == start + lexeme_at(source, start).len
        },
    decreases remaining(source, pos),
{
    if pos < source.len() {
        lemma_lexeme_bound(source, pos);
        lemma_scan_progress(source, pos + lexeme_at(source, pos).len);
    }
}

} // verus!
