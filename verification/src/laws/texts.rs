//! How texts are taken apart and put together, said of texts that were put together.

use crate::commands::command_of;
use crate::text::{
    ascii_lower, ascii_lower_text, end_of_text, find_char, find_space, first_word, hex6, hex_digit,
    joined, split_once, trimmed, white_space, words,
};
use vstd::prelude::*;

verus! {

/// Whether the text has no white space in it.
pub open spec fn unbroken(text: Seq<char>) -> bool {
    forall|i: int| 0 <= i < text.len() ==> !white_space(#[trigger] text[i])
}

/// Whether the text is nothing but white space.
pub open spec fn blank(text: Seq<char>) -> bool {
    forall|i: int| 0 <= i < text.len() ==> white_space(#[trigger] text[i])
}

/// Of the first 128 characters, the space and those from tab to carriage return are white
/// space.
pub proof fn law_plain_white_space(c: char)
    requires
        (c as u32) < 0x80,
    ensures
        white_space(c) <==> c == ' ' || c == '\t' || c == '\n' || c == '\r' || c as u32 == 0xB
            || c as u32 == 0xC,
{
}

/// A capital letter becomes the small one at the same place of the alphabet, and every other
/// character stays.
pub proof fn law_lower_case_of_letters(c: char)
    ensures
        'A' <= c <= 'Z' ==> 'a' <= ascii_lower(c) <= 'z' && ascii_lower(c) as u32 - 'a' as u32
            == c as u32 - 'A' as u32,
        !('A' <= c <= 'Z') ==> ascii_lower(c) == c,
{
}

/// Lower case keeps the length, works character by character, and changes nothing the second
/// time.
pub proof fn law_lower_case_of_texts(text: Seq<char>, other: Seq<char>)
    ensures
        ascii_lower_text(text).len() == text.len(),
        forall|i: int| 0 <= i < text.len() ==> #[trigger] ascii_lower_text(text)[i] == ascii_lower(
            text[i],
        ),
        ascii_lower_text(ascii_lower_text(text)) == ascii_lower_text(text),
        ascii_lower_text(text + other) == ascii_lower_text(text) + ascii_lower_text(other),
{
    assert(ascii_lower_text(ascii_lower_text(text)) =~= ascii_lower_text(text));
    assert(ascii_lower_text(text + other) =~= ascii_lower_text(text) + ascii_lower_text(other));
}

proof fn lemma_char_at(text: Seq<char>, c: char, i: int, at: int)
    requires
        0 <= i <= at <= text.len(),
        forall|j: int| i <= j < at ==> text[j] != c,
        at == text.len() || text[at] == c,
    ensures
        find_char(text, c, i) == at,
    decreases at - i,
{
    if i < at {
        lemma_char_at(text, c, i + 1, at);
    }
}

proof fn lemma_space_at(text: Seq<char>, space: bool, i: int, at: int)
    requires
        0 <= i <= at <= text.len(),
        forall|j: int| i <= j < at ==> white_space(#[trigger] text[j]) != space,
        at == text.len() || white_space(text[at]) == space,
    ensures
        find_space(text, space, i) == at,
    decreases at - i,
{
    if i < at {
        lemma_space_at(text, space, i + 1, at);
    }
}

/// A text is split at the first place where the character stands: what was joined with it
/// comes apart again. Where the character does not stand, all of it is the first part.
pub proof fn law_split_at_the_first(head: Seq<char>, c: char, tail: Seq<char>)
    requires
        forall|i: int| 0 <= i < head.len() ==> head[i] != c,
    ensures
        split_once(head + seq![c] + tail, c) == (head, tail),
        split_once(head, c) == (head, Seq::<char>::empty()),
{
    let text = head + seq![c] + tail;
    let at = head.len() as int;
    assert forall|j: int| 0 <= j < at implies text[j] != c by {
        assert(text[j] == head[j]);
    }
    lemma_char_at(text, c, 0, at);
    assert(text.take(at) =~= head);
    assert(text.skip(at + 1) =~= tail);
    lemma_char_at(head, c, 0, at);
    assert(head.take(at) =~= head);
}

/// A command is the word behind the mark, whatever its letters' case, and what follows the
/// space behind it are its arguments.
pub proof fn law_command_and_arguments(mark: char, name: Seq<char>, args: Seq<char>)
    requires
        forall|i: int| 0 <= i < name.len() ==> name[i] != ' ',
    ensures
        command_of(seq![mark] + name + seq![' '] + args) == (ascii_lower_text(name), args),
        command_of(seq![mark] + name) == (ascii_lower_text(name), Seq::<char>::empty()),
{
    law_split_at_the_first(name, ' ', args);
    assert((seq![mark] + name + seq![' '] + args).skip(1) =~= name + seq![' '] + args);
    assert((seq![mark] + name).skip(1) =~= name);
}

/// The first word is what stands unbroken behind the leading white space; what comes behind
/// it, from its white space on, is the rest.
pub proof fn law_first_word(space: Seq<char>, word: Seq<char>, rest: Seq<char>)
    requires
        blank(space),
        unbroken(word),
        word.len() > 0,
        rest.len() > 0 ==> white_space(rest[0]),
    ensures
        first_word(space + word + rest) == (word, rest),
{
    let text = space + word + rest;
    let start = space.len() as int;
    let end = start + word.len();
    assert forall|j: int| 0 <= j < start implies white_space(#[trigger] text[j]) != false by {
        assert(text[j] == space[j]);
    }
    assert(text[start] == word[0]);
    lemma_space_at(text, false, 0, start);
    assert forall|j: int| start <= j < end implies white_space(#[trigger] text[j]) != true by {
        assert(text[j] == word[j - start]);
    }
    if rest.len() > 0 {
        assert(text[end] == rest[0]);
    }
    lemma_space_at(text, true, start, end);
    assert(text.subrange(start, end) =~= word);
    assert(text.skip(end) =~= rest);
}

/// There is no word in white space.
pub proof fn law_no_word_in_blank_text(text: Seq<char>)
    requires
        blank(text),
    ensures
        first_word(text).0.len() == 0,
        words(text).len() == 0,
        trimmed(text).len() == 0,
{
    let n = text.len() as int;
    lemma_space_at(text, false, 0, n);
    lemma_space_at(text, true, n, n);
    assert(end_of_text(text, n, n) == n);
}

/// The words of a text are its first word and the words of the rest.
pub proof fn law_words_one_after_the_other(space: Seq<char>, word: Seq<char>, rest: Seq<char>)
    requires
        blank(space),
        unbroken(word),
        word.len() > 0,
        rest.len() > 0 ==> white_space(rest[0]),
    ensures
        words(space + word + rest) == seq![word] + words(rest),
{
    law_first_word(space, word, rest);
}

/// Words are joined by one space between two of them, and by none before or behind.
pub proof fn law_joined_by_spaces(list: Seq<Seq<char>>, word: Seq<char>)
    ensures
        joined(Seq::empty()) == Seq::<char>::empty(),
        joined(seq![word]) == word,
        list.len() > 0 ==> joined(list.push(word)) == joined(list) + seq![' '] + word,
{
    assert(list.push(word).drop_last() =~= list);
}

proof fn lemma_end_of_text(text: Seq<char>, start: int, end: int, at: int)
    requires
        0 <= start <= at <= end <= text.len(),
        forall|j: int| at <= j < end ==> white_space(#[trigger] text[j]),
        at == start || !white_space(text[at - 1]),
    ensures
        end_of_text(text, start, end) == at,
    decreases end,
{
    if at < end {
        lemma_end_of_text(text, start, end - 1, at);
    }
}

/// What begins and ends with no white space is what is left of it when white space stands
/// before and behind it.
pub proof fn law_trimmed(before: Seq<char>, text: Seq<char>, behind: Seq<char>)
    requires
        blank(before),
        blank(behind),
        text.len() > 0,
        !white_space(text[0]),
        !white_space(text.last()),
    ensures
        trimmed(before + text + behind) == text,
{
    let all = before + text + behind;
    let start = before.len() as int;
    let end = start + text.len();
    assert forall|j: int| 0 <= j < start implies white_space(#[trigger] all[j]) != false by {
        assert(all[j] == before[j]);
    }
    assert(all[start] == text[0]);
    lemma_space_at(all, false, 0, start);
    assert forall|j: int| end <= j < all.len() implies white_space(#[trigger] all[j]) by {
        assert(all[j] == behind[j - end]);
    }
    assert(all[end - 1] == text.last());
    lemma_end_of_text(all, start, all.len() as int, end);
    assert(all.subrange(start, end) =~= text);
}

/// The number that a hexadecimal digit stands for.
pub open spec fn digit_value(c: char) -> int {
    if '0' <= c <= '9' { c as int - '0' as int } else { c as int - 'A' as int + 10 }
}

/// Six digits, which read together give the number again.
pub proof fn law_hexadecimal(v: int)
    requires
        0 <= v < 0x100_0000,
    ensures
        hex6(v).len() == 6,
        v == digit_value(hex6(v)[0]) * 0x10_0000 + digit_value(hex6(v)[1]) * 0x1_0000
            + digit_value(hex6(v)[2]) * 0x1000 + digit_value(hex6(v)[3]) * 0x100 + digit_value(
            hex6(v)[4],
        ) * 0x10 + digit_value(hex6(v)[5]),
        forall|i: int| 0 <= i < 6 ==> '0' <= #[trigger] hex6(v)[i] <= '9' || 'A' <= hex6(v)[i]
            <= 'F',
{
    lemma_places(v);
    lemma_digit(v / 0x10_0000 % 16);
    lemma_digit(v / 0x1_0000 % 16);
    lemma_digit(v / 0x1000 % 16);
    lemma_digit(v / 0x100 % 16);
    lemma_digit(v / 0x10 % 16);
    lemma_digit(v % 16);
}

proof fn lemma_digit(d: int)
    requires
        0 <= d < 16,
    ensures
        digit_value(hex_digit(d)) == d,
        '0' <= hex_digit(d) <= '9' || 'A' <= hex_digit(d) <= 'F',
{
}

proof fn lemma_places(v: int)
    requires
        0 <= v < 0x100_0000,
    ensures
        v == (v / 0x10_0000 % 16) * 0x10_0000 + (v / 0x1_0000 % 16) * 0x1_0000 + (v / 0x1000 % 16)
            * 0x1000 + (v / 0x100 % 16) * 0x100 + (v / 0x10 % 16) * 0x10 + v % 16,
{
    let a = v / 16;
    let b = a / 16;
    let c = b / 16;
    let d = c / 16;
    let e = d / 16;
    assert(v / 0x100 == b);
    assert(v / 0x1000 == c);
    assert(v / 0x1_0000 == d);
    assert(v / 0x10_0000 == e);
    assert(e % 16 == e);
}

} // verus!
