//! Runs of characters: how far the scanner reads on from a position, and
//! what of the text around a run its length depends on.

use vstd::prelude::*;
use crate::lexer::{digits, is_digit, is_word, rest_of_line, unquoted, word_chars};

verus! {

/// The two texts read the same from `p` in the first and from `q` in the
/// second to their ends.
pub open spec fn same_tail(first: Seq<char>, p: int, second: Seq<char>, q: int) -> bool {
    &&& 0 <= p <= first.len()
    &&& 0 <= q <= second.len()
    &&& first.subrange(p, first.len() as int) == second.subrange(q, second.len() as int)
}

/// Texts that read the same from two positions read the same from any two
/// positions equally far behind them, character for character.
pub proof fn lemma_same_tail(first: Seq<char>, p: int, second: Seq<char>, q: int, by: int)
    requires
        same_tail(first, p, second, q),
        0 <= by <= first.len() - p,
    ensures
        first.len() - p == second.len() - q,
        same_tail(first, p + by, second, q + by),
        by < first.len() - p ==> first[p + by] == second[q + by],
{
    let one = first.subrange(p, first.len() as int);
    let two = second.subrange(q, second.len() as int);
    assert(one.len() == two.len());
    assert(first.subrange(p + by, first.len() as int) =~= one.subrange(by, one.len() as int));
    assert(second.subrange(q + by, second.len() as int) =~= two.subrange(by, two.len() as int));
    if by < first.len() - p {
        assert(first[p + by] == one[by]);
        assert(second[q + by] == two[by]);
    }
}

/// The run from `from` ends inside the text; every character of it
/// is a digit, and the character after it, if there is one, is not.
pub proof fn lemma_digits_run(source: Seq<char>, from: int)
    requires
        0 <= from <= source.len(),
    ensures
        from + digits(source, from) <= source.len(),
        forall|i: int| from <= i < from + digits(source, from) ==> is_digit(source[i]),
        from + digits(source, from) < source.len() ==>
            !(is_digit(source[from + digits(source, from)])),
    decreases source.len() - from,
{
    if from < source.len() && is_digit(source[from]) {
        lemma_digits_run(source, from + 1);
    }
}

/// A stretch of `len` characters that are each a digit, with the text's end
/// or a character that is not behind it, is the run from `from`.
pub proof fn lemma_digits_is(source: Seq<char>, from: int, len: nat)
    requires
        0 <= from,
        from + len <= source.len(),
        forall|i: int| from <= i < from + len ==> is_digit(source[i]),
        from + len < source.len() ==> !(is_digit(source[from + len])),
    ensures
        digits(source, from) == len,
    decreases len,
{
    if len > 0 {
        lemma_digits_is(source, from + 1, (len - 1) as nat);
    }
}

/// Text added behind `text` leaves a run as it is, if the run ends before
/// the end of `text` or the added text does not go on with it.
pub proof fn lemma_digits_extended(text: Seq<char>, more: Seq<char>, from: int)
    requires
        0 <= from <= text.len(),
        from + digits(text, from) < text.len() || more.len() == 0 || !(is_digit(more[0])),
    ensures
        digits(text + more, from) == digits(text, from),
{
    lemma_digits_run(text, from);
    let len = digits(text, from);
    assert forall|i: int| from <= i < from + len implies is_digit((text + more)[i]) by {
        assert((text + more)[i] == text[i]);
    }
    if from + len < text.len() {
        assert((text + more)[from + len] == text[from + len]);
    } else if more.len() > 0 {
        assert((text + more)[from + len] == more[0]);
    }
    lemma_digits_is(text + more, from, len);
}

/// Texts that read the same from two positions have the same run there.
pub proof fn lemma_digits_shifted(first: Seq<char>, p: int, second: Seq<char>, q: int)
    requires
        same_tail(first, p, second, q),
    ensures
        digits(first, p) == digits(second, q),
{
    lemma_digits_run(first, p);
    let len = digits(first, p);
    lemma_same_tail(first, p, second, q, len as int);
    assert forall|i: int| q <= i < q + len implies is_digit(second[i]) by {
        lemma_same_tail(first, p, second, q, i - q);
    }
    lemma_digits_is(second, q, len);
}

/// The run from `from` ends inside the text; every character of it
/// is an identifier character, and the character after it, if there is one, is not.
pub proof fn lemma_word_chars_run(source: Seq<char>, from: int)
    requires
        0 <= from <= source.len(),
    ensures
        from + word_chars(source, from) <= source.len(),
        forall|i: int| from <= i < from + word_chars(source, from) ==> is_word(source[i]),
        from + word_chars(source, from) < source.len() ==>
            !(is_word(source[from + word_chars(source, from)])),
    decreases source.len() - from,
{
    if from < source.len() && is_word(source[from]) {
        lemma_word_chars_run(source, from + 1);
    }
}

/// A stretch of `len` characters that are each an identifier character, with the text's end
/// or a character that is not behind it, is the run from `from`.
pub proof fn lemma_word_chars_is(source: Seq<char>, from: int, len: nat)
    requires
        0 <= from,
        from + len <= source.len(),
        forall|i: int| from <= i < from + len ==> is_word(source[i]),
        from + len < source.len() ==> !(is_word(source[from + len])),
    ensures
        word_chars(source, from) == len,
    decreases len,
{
    if len > 0 {
        lemma_word_chars_is(source, from + 1, (len - 1) as nat);
    }
}

/// Text added behind `text` leaves a run as it is, if the run ends before
/// the end of `text` or the added text does not go on with it.
pub proof fn lemma_word_chars_extended(text: Seq<char>, more: Seq<char>, from: int)
    requires
        0 <= from <= text.len(),
        from + word_chars(text, from) < text.len() || more.len() == 0 || !(is_word(more[0])),
    ensures
        word_chars(text + more, from) == word_chars(text, from),
{
    lemma_word_chars_run(text, from);
    let len = word_chars(text, from);
    assert forall|i: int| from <= i < from + len implies is_word((text + more)[i]) by {
        assert((text + more)[i] == text[i]);
    }
    if from + len < text.len() {
        assert((text + more)[from + len] == text[from + len]);
    } else if more.len() > 0 {
        assert((text + more)[from + len] == more[0]);
    }
    lemma_word_chars_is(text + more, from, len);
}

/// Texts that read the same from two positions have the same run there.
pub proof fn lemma_word_chars_shifted(first: Seq<char>, p: int, second: Seq<char>, q: int)
    requires
        same_tail(first, p, second, q),
    ensures
        word_chars(first, p) == word_chars(second, q),
{
    lemma_word_chars_run(first, p);
    let len = word_chars(first, p);
    lemma_same_tail(first, p, second, q, len as int);
    assert forall|i: int| q <= i < q + len implies is_word(second[i]) by {
        lemma_same_tail(first, p, second, q, i - q);
    }
    lemma_word_chars_is(second, q, len);
}

/// The run from `from` ends inside the text; every character of it
/// is no line break, and the character after it, if there is one, is not.
pub proof fn lemma_rest_of_line_run(source: Seq<char>, from: int)
    requires
        0 <= from <= source.len(),
    ensures
        from + rest_of_line(source, from) <= source.len(),
        forall|i: int| from <= i < from + rest_of_line(source, from) ==> source[i] != '\n',
        from + rest_of_line(source, from) < source.len() ==>
            !(source[from + rest_of_line(source, from)] != '\n'),
    decreases source.len() - from,
{
    if from < source.len() && source[from] != '\n' {
        lemma_rest_of_line_run(source, from + 1);
    }
}

/// A stretch of `len` characters that are each no line break, with the text's end
/// or a character that is not behind it, is the run from `from`.
pub proof fn lemma_rest_of_line_is(source: Seq<char>, from: int, len: nat)
    requires
        0 <= from,
        from + len <= source.len(),
        forall|i: int| from <= i < from + len ==> source[i] != '\n',
        from + len < source.len() ==> !(source[from + len] != '\n'),
    ensures
        rest_of_line(source, from) == len,
    decreases len,
{
    if len > 0 {
        lemma_rest_of_line_is(source, from + 1, (len - 1) as nat);
    }
}

/// Text added behind `text` leaves a run as it is, if the run ends before
/// the end of `text` or the added text does not go on with it.
pub proof fn lemma_rest_of_line_extended(text: Seq<char>, more: Seq<char>, from: int)
    requires
        0 <= from <= text.len(),
        from + rest_of_line(text, from) < text.len() || more.len() == 0 || !(more[0] != '\n'),
    ensures
        rest_of_line(text + more, from) == rest_of_line(text, from),
{
    lemma_rest_of_line_run(text, from);
    let len = rest_of_line(text, from);
    assert forall|i: int| from <= i < from + len implies (text + more)[i] != '\n' by {
        assert((text + more)[i] == text[i]);
    }
    if from + len < text.len() {
        assert((text + more)[from + len] == text[from + len]);
    } else if more.len() > 0 {
        assert((text + more)[from + len] == more[0]);
    }
    lemma_rest_of_line_is(text + more, from, len);
}

/// Texts that read the same from two positions have the same run there.
pub proof fn lemma_rest_of_line_shifted(first: Seq<char>, p: int, second: Seq<char>, q: int)
    requires
        same_tail(first, p, second, q),
    ensures
        rest_of_line(first, p) == rest_of_line(second, q),
{
    lemma_rest_of_line_run(first, p);
    let len = rest_of_line(first, p);
    lemma_same_tail(first, p, second, q, len as int);
    assert forall|i: int| q <= i < q + len implies second[i] != '\n' by {
        lemma_same_tail(first, p, second, q, i - q);
    }
    lemma_rest_of_line_is(second, q, len);
}

/// The run from `from` ends inside the text; every character of it
/// is no quote, and the character after it, if there is one, is not.
pub proof fn lemma_unquoted_run(source: Seq<char>, from: int)
    requires
        0 <= from <= source.len(),
    ensures
        from + unquoted(source, from) <= source.len(),
        forall|i: int| from <= i < from + unquoted(source, from) ==> source[i] != '"',
        from + unquoted(source, from) < source.len() ==>
            !(source[from + unquoted(source, from)] != '"'),
    decreases source.len() - from,
{
    if from < source.len() && source[from] != '"' {
        lemma_unquoted_run(source, from + 1);
    }
}

/// A stretch of `len` characters that are each no quote, with the text's end
/// or a character that is not behind it, is the run from `from`.
pub proof fn lemma_unquoted_is(source: Seq<char>, from: int, len: nat)
    requires
        0 <= from,
        from + len <= source.len(),
        forall|i: int| from <= i < from + len ==> source[i] != '"',
        from + len < source.len() ==> !(source[from + len] != '"'),
    ensures
        unquoted(source, from) == len,
    decreases len,
{
    if len > 0 {
        lemma_unquoted_is(source, from + 1, (len - 1) as nat);
    }
}

/// Text added behind `text` leaves a run as it is, if the run ends before
/// the end of `text` or the added text does not go on with it.
pub proof fn lemma_unquoted_extended(text: Seq<char>, more: Seq<char>, from: int)
    requires
        0 <= from <= text.len(),
        from + unquoted(text, from) < text.len() || more.len() == 0 || !(more[0] != '"'),
    ensures
        unquoted(text + more, from) == unquoted(text, from),
{
    lemma_unquoted_run(text, from);
    let len = unquoted(text, from);
    assert forall|i: int| from <= i < from + len implies (text + more)[i] != '"' by {
        assert((text + more)[i] == text[i]);
    }
    if from + len < text.len() {
        assert((text + more)[from + len] == text[from + len]);
    } else if more.len() > 0 {
        assert((text + more)[from + len] == more[0]);
    }
    lemma_unquoted_is(text + more, from, len);
}

/// Texts that read the same from two positions have the same run there.
pub proof fn lemma_unquoted_shifted(first: Seq<char>, p: int, second: Seq<char>, q: int)
    requires
        same_tail(first, p, second, q),
    ensures
        unquoted(first, p) == unquoted(second, q),
{
    lemma_unquoted_run(first, p);
    let len = unquoted(first, p);
    lemma_same_tail(first, p, second, q, len as int);
    assert forall|i: int| q <= i < q + len implies second[i] != '"' by {
        lemma_same_tail(first, p, second, q, i - q);
    }
    lemma_unquoted_is(second, q, len);
}

} // verus!
