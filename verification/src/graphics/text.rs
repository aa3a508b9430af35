//! Text as bytes: the words of a line, the fields of a word, and numbers
//! written in digits.

use vstd::prelude::*;

verus! {

/// The byte for a blank.
pub const BLANK: u8 = 32;

/// The byte for a tab, the first of the control bytes that separate words.
pub const TAB: u8 = 9;

/// The byte for a carriage return, the last of them.
pub const RETURN: u8 = 13;

/// The byte for the digit 0.
pub const DIGIT_0: u8 = 48;

/// The byte for the digit 9.
pub const DIGIT_9: u8 = 57;

/// The byte for a slash.
pub const SLASH: u8 = 47;

/// Blank, tab, line feed, vertical tab, form feed and carriage return
/// separate words.
pub open spec fn is_space(byte: u8) -> bool {
    byte == BLANK || (TAB <= byte && byte <= RETURN)
}

pub open spec fn is_digit(byte: u8) -> bool {
    DIGIT_0 <= byte && byte <= DIGIT_9
}

/// How many bytes stand at the head of `text` before the first space.
pub open spec fn word_len(text: Seq<u8>) -> nat
    decreases text.len(),
{
    if text.len() == 0 || is_space(text[0]) {
        0
    } else {
        1 + word_len(text.drop_first())
    }
}

/// The words of `text`: its longest runs of bytes that are not spaces, in
/// their order.
pub open spec fn words(text: Seq<u8>) -> Seq<Seq<u8>>
    decreases text.len(),
    via words_terminates
{
    if text.len() == 0 {
        Seq::empty()
    } else if is_space(text[0]) {
        words(text.drop_first())
    } else {
        let n = word_len(text) as int;
        seq![text.take(n)] + words(text.skip(n))
    }
}

#[via_fn]
proof fn words_terminates(text: Seq<u8>) {
    lemma_word_len_bounds(text);
}

proof fn lemma_word_len_bounds(text: Seq<u8>)
    ensures
        word_len(text) <= text.len(),
        text.len() > 0 && !is_space(text[0]) ==> word_len(text) >= 1,
    decreases text.len(),
{
    if text.len() > 0 && !is_space(text[0]) {
        lemma_word_len_bounds(text.drop_first());
    }
}

/// How many bytes stand at the head of `text` before the first slash.
pub open spec fn field_len(text: Seq<u8>) -> nat
    decreases text.len(),
{
    if text.len() == 0 || text[0] == SLASH {
        0
    } else {
        1 + field_len(text.drop_first())
    }
}

/// What the slashes of `text` separate: one field more than there are
/// slashes, and an empty one wherever a slash has nothing beside it.
pub open spec fn fields(text: Seq<u8>) -> Seq<Seq<u8>>
    decreases text.len(),
{
    let n = field_len(text) as int;
    if n >= text.len() {
        seq![text]
    } else {
        seq![text.take(n)] + fields(text.skip(n + 1))
    }
}

/// The number that the digits of `text` write in base ten.
pub open spec fn decimal(text: Seq<u8>) -> nat
    decreases text.len(),
{
    if text.len() == 0 {
        0
    } else {
        10 * decimal(text.drop_last()) + (text.last() - DIGIT_0) as nat
    }
}

/// The number that `text` writes: digits only, at least one, and no more
/// than 32 bits can hold.
pub open spec fn number(text: Seq<u8>) -> Option<u32> {
    if text.len() > 0 && (forall|i: int| 0 <= i < text.len() ==> is_digit(#[trigger] text[i]))
        && decimal(text) <= u32::MAX {
        Some(decimal(text) as u32)
    } else {
        None
    }
}

/// What each of `items` holds.
pub open spec fn texts(items: Seq<Vec<u8>>) -> Seq<Seq<u8>> {
    Seq::new(items.len(), |i: int| items[i]@)
}

proof fn lemma_word_len(text: Seq<u8>, n: int)
    requires
        0 <= n <= text.len(),
        forall|k: int| 0 <= k < n ==> !is_space(#[trigger] text[k]),
        n == text.len() || is_space(text[n]),
    ensures
        word_len(text) == n,
    decreases n,
{
    if n > 0 {
        lemma_word_len(text.drop_first(), n - 1);
    }
}

proof fn lemma_field_len(text: Seq<u8>, n: int)
    requires
        0 <= n <= text.len(),
        forall|k: int| 0 <= k < n ==> #[trigger] text[k] != SLASH,
        n == text.len() || text[n] == SLASH,
    ensures
        field_len(text) == n,
    decreases n,
{
    if n > 0 {
        lemma_field_len(text.drop_first(), n - 1);
    }
}

fn is_space_byte(byte: u8) -> (space: bool)
    ensures
        space == is_space(byte),
{
    byte == BLANK || (TAB <= byte && byte <= RETURN)
}

/// Splits a line into its words.
pub fn split_words(text: &[u8]) -> (found: Vec<Vec<u8>>)
    ensures
        texts(found@) == words(text@),
{
    let mut found: Vec<Vec<u8>> = Vec::new();
    let mut i: usize = 0;
    proof {
        assert(text@.skip(0) =~= text@);
        assert(texts(found@) + words(text@) =~= words(text@));
    }
    while i < text.len()
        invariant
            i <= text.len(),
            words(text@) == texts(found@) + words(text@.skip(i as int)),
        decreases text.len() - i,
    {
        let ghost rest = text@.skip(i as int);
        if is_space_byte(text[i]) {
            proof {
                assert(rest.drop_first() =~= text@.skip(i + 1));
            }
            i += 1;
        } else {
            let start = i;
            let mut word: Vec<u8> = Vec::new();
            while i < text.len() && !is_space_byte(text[i])
                invariant
                    start <= i <= text.len(),
                    word@ == text@.subrange(start as int, i as int),
                    forall|k: int| start <= k < i ==> !is_space(#[trigger] text@[k]),
                decreases text.len() - i,
            {
                word.push(text[i]);
                proof {
                    assert(word@ =~= text@.subrange(start as int, i + 1));
                }
                i += 1;
            }
            proof {
                let n = i - start;
                assert forall|k: int| 0 <= k < n implies !is_space(#[trigger] rest[k]) by {
                    assert(rest[k] == text@[start + k]);
                }
                lemma_word_len(rest, n);
                assert(rest.take(n) =~= word@);
                assert(rest.skip(n) =~= text@.skip(i as int));
                assert(texts(found@.push(word)) =~= texts(found@) + seq![word@]);
                assert((texts(found@) + seq![word@]) + words(text@.skip(i as int)) =~= texts(found@)
                    + (seq![word@] + words(text@.skip(i as int))));
            }
            found.push(word);
        }
    }
    proof {
        assert(texts(found@) + Seq::<Seq<u8>>::empty() =~= texts(found@));
    }
    found
}

/// Splits a word at its slashes.
pub fn split_fields(text: &[u8]) -> (found: Vec<Vec<u8>>)
    ensures
        texts(found@) == fields(text@),
{
    let mut found: Vec<Vec<u8>> = Vec::new();
    let mut field: Vec<u8> = Vec::new();
    let mut start: usize = 0;
    let mut i: usize = 0;
    proof {
        assert(text@.skip(0) =~= text@);
        assert(texts(found@) + fields(text@) =~= fields(text@));
    }
    while i < text.len()
        invariant
            start <= i <= text.len(),
            fields(text@) == texts(found@) + fields(text@.skip(start as int)),
            field@ == text@.subrange(start as int, i as int),
            forall|k: int| start <= k < i ==> #[trigger] text@[k] != SLASH,
        decreases text.len() - i,
    {
        if text[i] == SLASH {
            proof {
                let rest = text@.skip(start as int);
                let n = i - start;
                assert forall|k: int| 0 <= k < n implies #[trigger] rest[k] != SLASH by {
                    assert(rest[k] == text@[start + k]);
                }
                lemma_field_len(rest, n);
                assert(rest.take(n) =~= field@);
                assert(rest.skip(n + 1) =~= text@.skip(i + 1));
                assert(texts(found@.push(field)) =~= texts(found@) + seq![field@]);
                assert((texts(found@) + seq![field@]) + fields(text@.skip(i + 1)) =~= texts(found@)
                    + (seq![field@] + fields(text@.skip(i + 1))));
            }
            found.push(field);
            field = Vec::new();
            start = i + 1;
            proof {
                assert(field@ =~= text@.subrange(start as int, i + 1));
            }
        } else {
            field.push(text[i]);
            proof {
                assert(field@ =~= text@.subrange(start as int, i + 1));
            }
        }
        i += 1;
    }
    proof {
        let rest = text@.skip(start as int);
        let n = i - start;
        assert forall|k: int| 0 <= k < n implies #[trigger] rest[k] != SLASH by {
            assert(rest[k] == text@[start + k]);
        }
        lemma_field_len(rest, n);
        assert(rest =~= field@);
        assert(texts(found@.push(field)) =~= texts(found@) + seq![field@]);
    }
    found.push(field);
    found
}

proof fn lemma_decimal_grows(text: Seq<u8>, n: int)
    requires
        0 <= n <= text.len(),
    ensures
        decimal(text.take(n)) <= decimal(text),
    decreases text.len(),
{
    if n == text.len() {
        assert(text.take(n) =~= text);
    } else {
        lemma_decimal_grows(text.drop_last(), n);
        assert(text.drop_last().take(n) =~= text.take(n));
    }
}

/// Reads a number written in digits.
pub fn parse_number(text: &[u8]) -> (parsed: Option<u32>)
    ensures
        parsed == number(text@),
{
    if text.len() == 0 {
        return None;
    }
    let mut value: u32 = 0;
    let mut i: usize = 0;
    while i < text.len()
        invariant
            i <= text.len(),
            forall|k: int| 0 <= k < i ==> is_digit(#[trigger] text@[k]),
            value == decimal(text@.take(i as int)),
        decreases text.len() - i,
    {
        let byte = text[i];
        if byte < DIGIT_0 || byte > DIGIT_9 {
            return None;
        }
        let digit: u32 = (byte - DIGIT_0) as u32;
        proof {
            assert(text@.take(i + 1).drop_last() =~= text@.take(i as int));
            assert(decimal(text@.take(i + 1)) == 10 * value + digit);
        }
        if value > (u32::MAX - digit) / 10 {
            proof {
                lemma_decimal_grows(text@, i + 1);
            }
            return None;
        }
        value = value * 10 + digit;
        i += 1;
    }
    proof {
        assert(text@.take(i as int) =~= text@);
    }
    Some(value)
}

} // verus!
