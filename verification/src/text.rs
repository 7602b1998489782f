//! Texts: comparing, lower-casing, splitting, and numbers as digits.

use vstd::prelude::*;
use vstd::string::*;
use vstd::utf8::encode_utf8;

verus! {

/// The lower-case form of a text.
pub uninterp spec fn lowercase_of(text: Seq<char>) -> Seq<char>;

/// Calls `str::to_lowercase` of the standard library. The result depends on the text
/// alone; which characters it changes is left unsaid.
#[verifier::external_body]
pub(crate) fn to_lowercase(text: &str) -> (r: String)
    ensures
        r@ == lowercase_of(text@),
{
    text.to_lowercase()
}

/// Whether a character is white space, as Unicode has it.
pub open spec fn white_space(c: char) -> bool {
    let n = c as u32;
    ||| 0x9 <= n <= 0xD
    ||| n == 0x20
    ||| n == 0x85
    ||| n == 0xA0
    ||| n == 0x1680
    ||| 0x2000 <= n <= 0x200A
    ||| n == 0x2028
    ||| n == 0x2029
    ||| n == 0x202F
    ||| n == 0x205F
    ||| n == 0x3000
}

/// Whether a character is white space.
pub fn is_whitespace(c: char) -> (r: bool)
    ensures
        r == white_space(c),
{
    let n: u32 = c as u32;
    (0x9 <= n && n <= 0xD) || n == 0x20 || n == 0x85 || n == 0xA0 || n == 0x1680 || (0x2000 <= n
        && n <= 0x200A) || n == 0x2028 || n == 0x2029 || n == 0x202F || n == 0x205F || n == 0x3000
}

/// Calls `String::push` of the standard library: the character is then the last one.
#[verifier::external_body]
fn push_char(text: &mut String, c: char)
    ensures
        final(text)@ == old(text)@.push(c),
{
    text.push(c)
}

/// Whether two texts are equal.
pub fn text_eq(a: &str, b: &str) -> (r: bool)
    ensures
        r == (a@ == b@),
{
    let x = a.as_bytes();
    let y = b.as_bytes();
    proof {
        vstd::utf8::encode_utf8_decode_utf8(a@);
        vstd::utf8::encode_utf8_decode_utf8(b@);
    }
    if x.len() != y.len() {
        return false;
    }
    let mut i: usize = 0;
    while i < x.len()
        invariant
            i <= x@.len() == y@.len(),
            x@ == encode_utf8(a@),
            y@ == encode_utf8(b@),
            forall|j: int| 0 <= j < i ==> x@[j] == y@[j],
        decreases x@.len() - i,
    {
        if x[i] != y[i] {
            assert(x@ != y@);
            return false;
        }
        i += 1;
    }
    assert(x@ =~= y@);
    true
}

/// The ASCII lower-case form of a character.
pub open spec fn ascii_lower(c: char) -> char {
    if 'A' <= c && c <= 'Z' { (c as u32 + 32) as char } else { c }
}

/// The ASCII lower-case form of a text.
pub open spec fn ascii_lower_text(text: Seq<char>) -> Seq<char> {
    Seq::new(text.len(), |i: int| ascii_lower(text[i]))
}

fn lower_char(c: char) -> (r: char)
    ensures
        r == ascii_lower(c),
{
    if 'A' <= c && c <= 'Z' { ((c as u8) + 32) as char } else { c }
}

/// The ASCII lower-case form of a text.
pub fn to_ascii_lowercase(text: &str) -> (r: String)
    ensures
        r@ == ascii_lower_text(text@),
{
    let n: usize = text.unicode_len();
    let mut out = String::new();
    let mut i: usize = 0;
    assert(out@ =~= ascii_lower_text(text@).take(0));
    while i < n
        invariant
            n == text@.len(),
            i <= n,
            out@ == ascii_lower_text(text@).take(i as int),
        decreases n - i,
    {
        push_char(&mut out, lower_char(text.get_char(i)));
        i += 1;
        assert(out@ =~= ascii_lower_text(text@).take(i as int));
    }
    assert(out@ =~= ascii_lower_text(text@));
    out
}

/// Whether two texts are equal up to ASCII case.
pub fn eq_ignore_ascii_case(a: &str, b: &str) -> (r: bool)
    ensures
        r == (ascii_lower_text(a@) == ascii_lower_text(b@)),
{
    let x = to_ascii_lowercase(a);
    let y = to_ascii_lowercase(b);
    text_eq(x.as_str(), y.as_str())
}

// ---------------------------------------------------------------------------
// Splitting.

/// Where the first character from `i` on stands that is `c`, or the end.
pub open spec fn find_char(text: Seq<char>, c: char, i: int) -> int
    decreases text.len() - i,
{
    if i >= text.len() || text[i] == c { i } else { find_char(text, c, i + 1) }
}

/// Where the first character from `i` on stands that is white space, or is not, or the
/// end.
pub open spec fn find_space(text: Seq<char>, space: bool, i: int) -> int
    decreases text.len() - i,
{
    if i >= text.len() || white_space(text[i]) == space { i } else { find_space(text, space, i + 1) }
}

/// The text before the first `c`, and what stands behind it.
pub open spec fn split_once(text: Seq<char>, c: char) -> (Seq<char>, Seq<char>) {
    let at = find_char(text, c, 0);
    (text.take(at), if at < text.len() { text.skip(at + 1) } else { Seq::empty() })
}

/// The first word of a text, and what stands behind it.
pub open spec fn first_word(text: Seq<char>) -> (Seq<char>, Seq<char>) {
    let start = find_space(text, false, 0);
    let end = find_space(text, true, start);
    (text.subrange(start, end), text.skip(end))
}

/// The words of a text.
pub open spec fn words(text: Seq<char>) -> Seq<Seq<char>>
    decreases text.len(),
    via words_decrease
{
    let (word, rest) = first_word(text);
    if word.len() == 0 { Seq::empty() } else { seq![word] + words(rest) }
}

pub proof fn lemma_find_space(text: Seq<char>, space: bool, i: int)
    requires
        0 <= i <= text.len(),
    ensures
        i <= find_space(text, space, i) <= text.len(),
    decreases text.len() - i,
{
    if i < text.len() && white_space(text[i]) != space {
        lemma_find_space(text, space, i + 1);
    }
}

pub proof fn lemma_find_char(text: Seq<char>, c: char, i: int)
    requires
        0 <= i <= text.len(),
    ensures
        i <= find_char(text, c, i) <= text.len(),
    decreases text.len() - i,
{
    if i < text.len() && text[i] != c {
        lemma_find_char(text, c, i + 1);
    }
}

#[via_fn]
proof fn words_decrease(text: Seq<char>) {
    let start = find_space(text, false, 0);
    lemma_find_space(text, false, 0);
    lemma_find_space(text, true, start);
}

/// The words with one space between them.
pub open spec fn joined(list: Seq<Seq<char>>) -> Seq<char>
    decreases list.len(),
{
    if list.len() == 0 {
        Seq::empty()
    } else if list.len() == 1 {
        list[0]
    } else {
        joined(list.drop_last()) + seq![' '] + list.last()
    }
}

/// The text without white space at its ends.
pub open spec fn trimmed(text: Seq<char>) -> Seq<char> {
    let start = find_space(text, false, 0);
    text.subrange(start, end_of_text(text, start, text.len() as int))
}

/// The end of a text without the white space before `end`, but not before `start`.
pub open spec fn end_of_text(text: Seq<char>, start: int, end: int) -> int
    decreases end,
{
    if end <= start || end <= 0 || !white_space(text[end - 1]) {
        end
    } else {
        end_of_text(text, start, end - 1)
    }
}

fn index_of_char(text: &str, n: usize, c: char) -> (r: usize)
    requires
        n == text@.len(),
    ensures
        r == find_char(text@, c, 0),
        r <= n,
{
    let mut i: usize = 0;
    while i < n
        invariant
            n == text@.len(),
            i <= n,
            find_char(text@, c, 0) == find_char(text@, c, i as int),
        decreases n - i,
    {
        if text.get_char(i) == c {
            return i;
        }
        i += 1;
    }
    n
}

fn index_of_space(text: &str, n: usize, space: bool, from: usize) -> (r: usize)
    requires
        n == text@.len(),
        from <= n,
    ensures
        r == find_space(text@, space, from as int),
        from <= r <= n,
{
    let mut i: usize = from;
    while i < n
        invariant
            n == text@.len(),
            from <= i <= n,
            find_space(text@, space, from as int) == find_space(text@, space, i as int),
        decreases n - i,
    {
        if is_whitespace(text.get_char(i)) == space {
            return i;
        }
        i += 1;
    }
    n
}

/// The text before the first `c`, and what stands behind it.
pub fn split_at_char(text: &str, c: char) -> (r: (String, String))
    ensures
        (r.0@, r.1@) == split_once(text@, c),
{
    let n: usize = text.unicode_len();
    let at: usize = index_of_char(text, n, c);
    let head = text.substring_char(0, at).to_owned();
    if at < n {
        let tail = text.substring_char(at + 1, n).to_owned();
        assert(tail@ =~= text@.skip(at + 1));
        (head, tail)
    } else {
        (head, String::new())
    }
}

/// The first word of a text, and what stands behind it.
pub fn split_first_word(text: &str) -> (r: (String, String))
    ensures
        (r.0@, r.1@) == first_word(text@),
{
    let n: usize = text.unicode_len();
    let start: usize = index_of_space(text, n, false, 0);
    let end: usize = index_of_space(text, n, true, start);
    let word = text.substring_char(start, end).to_owned();
    let rest = text.substring_char(end, n).to_owned();
    assert(rest@ =~= text@.skip(end as int));
    (word, rest)
}

/// The words of a text with one space between them.
pub fn join_words(text: &str) -> (r: String)
    ensures
        r@ == joined(words(text@)),
{
    let mut out = String::new();
    let mut any: bool = false;
    let (mut word, mut rest) = split_first_word(text);
    let ghost mut done: Seq<Seq<char>> = Seq::empty();
    proof {
        reveal_strlit(" ");
        assert(done + words(text@) =~= words(text@));
    }
    while !word.as_str().is_empty()
        invariant
            " "@ == seq![' '],
            any == (done.len() > 0),
            out@ == joined(done),
            words(text@) == done + if word@.len() == 0 {
                Seq::empty()
            } else {
                seq![word@] + words(rest@)
            },
        decreases rest@.len() + word@.len(),
    {
        let ghost before = done;
        let ghost this = word@;
        let ghost left = rest@;
        if any {
            out.append(" ");
        }
        out.append(word.as_str());
        any = true;
        let (next, tail) = split_first_word(rest.as_str());
        word = next;
        rest = tail;
        proof {
            done = before.push(this);
            assert(done.drop_last() =~= before);
            assert(words(left) =~= if word@.len() == 0 {
                Seq::empty()
            } else {
                seq![word@] + words(rest@)
            });
            assert(before + (seq![this] + words(left)) =~= done + words(left));
            let start = find_space(left, false, 0);
            lemma_find_space(left, false, 0);
            lemma_find_space(left, true, start);
            assert(rest@.len() + word@.len() <= left.len());
        }
    }
    assert(done + Seq::<Seq<char>>::empty() =~= done);
    out
}

/// The text without white space at its ends.
pub fn trim(text: &str) -> (r: String)
    ensures
        r@ == trimmed(text@),
{
    let n: usize = text.unicode_len();
    let start: usize = index_of_space(text, n, false, 0);
    let mut end: usize = n;
    while end > start
        invariant
            n == text@.len(),
            start == find_space(text@, false, 0),
            start <= end <= n,
            end_of_text(text@, start as int, n as int) == end_of_text(
                text@,
                start as int,
                end as int,
            ),
        decreases end,
    {
        if !is_whitespace(text.get_char(end - 1)) {
            return text.substring_char(start, end).to_owned();
        }
        end -= 1;
    }
    text.substring_char(start, end).to_owned()
}

// ---------------------------------------------------------------------------
// Digits.

/// An upper-case hexadecimal digit.
pub open spec fn hex_digit(v: int) -> char {
    if v < 10 { (v + 48) as char } else { (v + 55) as char }
}

/// Six upper-case hexadecimal digits, the high one first.
pub open spec fn hex6(v: int) -> Seq<char> {
    seq![
        hex_digit(v / 0x10_0000 % 16),
        hex_digit(v / 0x1_0000 % 16),
        hex_digit(v / 0x1000 % 16),
        hex_digit(v / 0x100 % 16),
        hex_digit(v / 0x10 % 16),
        hex_digit(v % 16),
    ]
}

fn digit_char(v: u32) -> (c: char)
    requires
        v < 16,
    ensures
        c == hex_digit(v as int),
{
    if v < 10 { (v as u8 + 48) as char } else { (v as u8 + 55) as char }
}

/// Six upper-case hexadecimal digits, the high one first.
pub fn to_hex6(v: u32) -> (r: String)
    ensures
        r@ == hex6(v as int),
{
    let mut out = String::new();
    push_char(&mut out, digit_char(v / 0x10_0000 % 16));
    push_char(&mut out, digit_char(v / 0x1_0000 % 16));
    push_char(&mut out, digit_char(v / 0x1000 % 16));
    push_char(&mut out, digit_char(v / 0x100 % 16));
    push_char(&mut out, digit_char(v / 0x10 % 16));
    push_char(&mut out, digit_char(v % 16));
    assert(out@ =~= hex6(v as int));
    out
}

} // verus!
