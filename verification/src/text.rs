//! Building text.

use vstd::prelude::*;

verus! {

/// The byte that separates the components of a path.
pub const SLASH: u8 = 0x2f;

/// The character of a decimal digit.
pub open spec fn digit(value: nat) -> char {
    ('0' as nat + value) as char
}

/// `value` in decimal, without leading zeros.
pub open spec fn decimal(value: nat) -> Seq<char>
    decreases value,
{
    if value < 10 {
        seq![digit(value)]
    } else {
        decimal(value / 10).push(digit(value % 10))
    }
}

/// `value` in decimal with a minus sign where it is negative.
pub open spec fn signed_decimal(value: int) -> Seq<char> {
    if value < 0 {
        seq!['-'] + decimal((-value) as nat)
    } else {
        decimal(value as nat)
    }
}

/// Appends one decimal digit.
pub(crate) fn push_digit(text: &mut String, value: u64)
    requires
        value < 10,
    ensures
        final(text)@ == old(text)@.push(digit(value as nat)),
{
    proof {
        reveal_strlit("0");
        reveal_strlit("1");
        reveal_strlit("2");
        reveal_strlit("3");
        reveal_strlit("4");
        reveal_strlit("5");
        reveal_strlit("6");
        reveal_strlit("7");
        reveal_strlit("8");
        reveal_strlit("9");
    }
    let digit = match value {
        0 => "0",
        1 => "1",
        2 => "2",
        3 => "3",
        4 => "4",
        5 => "5",
        6 => "6",
        7 => "7",
        8 => "8",
        _ => "9",
    };
    text.append(digit);
    assert(text@ =~= old(text)@.push(self::digit(value as nat)));
}

/// Appends a number in decimal.
pub(crate) fn push_decimal(text: &mut String, value: u64)
    ensures
        final(text)@ == old(text)@ + decimal(value as nat),
    decreases value,
{
    if value < 10 {
        push_digit(text, value);
        assert(text@ =~= old(text)@ + decimal(value as nat));
    } else {
        push_decimal(text, value / 10);
        push_digit(text, value % 10);
        assert(text@ =~= old(text)@ + decimal(value as nat));
    }
}

/// Appends a number in decimal, with its sign.
pub(crate) fn push_signed(text: &mut String, value: i64)
    ensures
        final(text)@ == old(text)@ + signed_decimal(value as int),
{
    if value < 0 {
        proof {
            reveal_strlit("-");
        }
        text.append("-");
        let magnitude: u64 = if value == i64::MIN {
            0x8000_0000_0000_0000
        } else {
            (-value) as u64
        };
        push_decimal(text, magnitude);
        assert("-"@ =~= seq!['-']);
        assert(text@ =~= old(text)@ + signed_decimal(value as int));
    } else {
        push_decimal(text, value as u64);
    }
}

/// Whether two texts are the same.
pub(crate) fn same_text(a: &str, b: &str) -> (same: bool)
    ensures
        same == (a@ == b@),
{
    String::from_str(a) == String::from_str(b)
}

/// A copy of `bytes`.
pub(crate) fn copy_bytes(bytes: &[u8]) -> (copy: Vec<u8>)
    ensures
        copy@ == bytes@,
{
    let mut copy: Vec<u8> = Vec::new();
    copy.extend_from_slice(bytes);
    copy
}

/// What `String::from_utf8_lossy` makes of `bytes`.
pub uninterp spec fn lossy_text(bytes: Seq<u8>) -> Seq<char>;

/// The text of `bytes`, from `String::from_utf8_lossy`: the decoded characters where the bytes are
/// valid UTF-8. What stands in place of the invalid parts of other bytes is left unsaid.
#[verifier::external_body]
pub(crate) fn from_utf8_lossy(bytes: &[u8]) -> (text: String)
    ensures
        text@ == lossy_text(bytes@),
        vstd::utf8::valid_utf8(bytes@) ==> text@ == vstd::utf8::decode_utf8(bytes@),
{
    String::from_utf8_lossy(bytes).into_owned()
}

/// The character is whitespace, as Unicode defines it.
pub open spec fn is_space(character: char) -> bool {
    let code = character as u32;
    ||| 9 <= code <= 13
    ||| code == 0x20
    ||| code == 0x85
    ||| code == 0xa0
    ||| code == 0x1680
    ||| 0x2000 <= code <= 0x200a
    ||| code == 0x2028
    ||| code == 0x2029
    ||| code == 0x202f
    ||| code == 0x205f
    ||| code == 0x3000
}

/// The characters of a text.
pub(crate) fn characters(text: &str) -> (characters: Vec<char>)
    ensures
        characters@ == text@,
{
    let mut characters: Vec<char> = Vec::new();
    for character in iter: text.chars()
        invariant
            iter.seq() == text@,
            characters@ == text@.take(iter.index()),
    {
        characters.push(character);
        assert(characters@ =~= text@.take(iter.index() + 1));
    }
    assert(text@.take(text@.len() as int) =~= text@);
    characters
}

/// Whether a character is whitespace.
pub(crate) fn is_whitespace(character: char) -> (is: bool)
    ensures
        is == is_space(character),
{
    let code: u32 = character as u32;
    (9 <= code && code <= 13) || code == 0x20 || code == 0x85 || code == 0xa0 || code == 0x1680 || (
    0x2000 <= code && code <= 0x200a) || code == 0x2028 || code == 0x2029 || code == 0x202f || code
        == 0x205f || code == 0x3000
}

/// `text` ends with `suffix`.
pub open spec fn ends_with(text: Seq<char>, suffix: Seq<char>) -> bool {
    text.len() >= suffix.len() && text.skip(text.len() - suffix.len()) == suffix
}

/// `part` occurs in `text`.
pub open spec fn contains(text: Seq<char>, part: Seq<char>) -> bool {
    exists|i: int|
        0 <= i <= text.len() - part.len() && #[trigger] text.subrange(i, i + part.len()) == part
}

/// Whether `part` stands in `text` at `start`.
fn stands_at(text: &Vec<char>, part: &Vec<char>, start: usize) -> (stands: bool)
    requires
        start + part@.len() <= text@.len(),
    ensures
        stands == (text@.subrange(start as int, start + part@.len()) == part@),
{
    let mut i: usize = 0;
    while i < part.len()
        invariant
            i <= part@.len(),
            start + part@.len() <= text@.len(),
            forall|k: int| 0 <= k < i ==> text@[start + k] == #[trigger] part@[k],
        decreases part@.len() - i,
    {
        assert(text.len() <= usize::MAX);
        if text[start + i] != part[i] {
            proof {
                let there = text@.subrange(start as int, start + part@.len());
                assert(there[i as int] == text@[start + i]);
            }
            return false;
        }
        i = i + 1;
    }
    assert(text@.subrange(start as int, start + part@.len()) =~= part@);
    true
}

/// Whether a text ends with another.
pub(crate) fn has_suffix(text: &str, suffix: &str) -> (has: bool)
    ensures
        has == ends_with(text@, suffix@),
{
    let whole = characters(text);
    let part = characters(suffix);
    if whole.len() < part.len() {
        return false;
    }
    let start: usize = whole.len() - part.len();
    assert(text@.subrange(start as int, text@.len() as int) =~= text@.skip(start as int));
    stands_at(&whole, &part, start)
}

/// Whether a text occurs in another.
pub(crate) fn has_part(text: &str, part: &str) -> (has: bool)
    ensures
        has == contains(text@, part@),
{
    let whole = characters(text);
    let piece = characters(part);
    if whole.len() < piece.len() {
        return false;
    }
    let last: usize = whole.len() - piece.len();
    let mut start: usize = 0;
    while start <= last
        invariant
            start <= last + 1,
            whole@ == text@,
            piece@ == part@,
            last == whole@.len() - piece@.len(),
            forall|i: int|
                0 <= i < start ==> #[trigger] text@.subrange(i, i + piece@.len()) != piece@,
        decreases last + 1 - start,
    {
        if stands_at(&whole, &piece, start) {
            return true;
        }
        if start == last {
            return false;
        }
        start = start + 1;
    }
    false
}

/// The small letter of a capital letter of ASCII; other characters as they are.
pub open spec fn ascii_lower(character: char) -> char {
    if 'A' <= character <= 'Z' {
        (character as u32 + 32) as char
    } else {
        character
    }
}

/// Two texts are the same but for the case of ASCII letters.
pub open spec fn same_ignoring_case(a: Seq<char>, b: Seq<char>) -> bool {
    a.len() == b.len() && forall|i: int|
        0 <= i < a.len() ==> ascii_lower(#[trigger] a[i]) == ascii_lower(b[i])
}

/// Code of the small letter of a capital letter of ASCII; other codes as they are.
fn lower_code(character: char) -> (code: u32)
    ensures
        code == ascii_lower(character) as u32,
{
    let code: u32 = character as u32;
    if 0x41 <= code && code <= 0x5a {
        code + 32
    } else {
        code
    }
}

/// Whether two texts are the same but for the case of ASCII letters.
pub(crate) fn is_same_ignoring_case(a: &str, b: &str) -> (same: bool)
    ensures
        same == same_ignoring_case(a@, b@),
{
    let left = characters(a);
    let right = characters(b);
    if left.len() != right.len() {
        return false;
    }
    let mut i: usize = 0;
    while i < left.len()
        invariant
            i <= left@.len(),
            left@ == a@,
            right@ == b@,
            left@.len() == right@.len(),
            forall|k: int| 0 <= k < i ==> ascii_lower(#[trigger] a@[k]) == ascii_lower(b@[k]),
        decreases left@.len() - i,
    {
        if lower_code(left[i]) != lower_code(right[i]) {
            assert(ascii_lower(a@[i as int]) != ascii_lower(b@[i as int]));
            return false;
        }
        proof {
            lemma_char_of_code(ascii_lower(a@[i as int]), ascii_lower(b@[i as int]));
        }
        i = i + 1;
    }
    true
}

proof fn lemma_char_of_code(a: char, b: char)
    requires
        a as u32 == b as u32,
    ensures
        a == b,
{
}

/// `text` without whitespace at its start.
pub open spec fn trimmed_start(text: Seq<char>) -> Seq<char>
    decreases text.len(),
{
    if text.len() > 0 && is_space(text[0]) {
        trimmed_start(text.drop_first())
    } else {
        text
    }
}

/// `text` without whitespace at its end.
pub open spec fn trimmed_end(text: Seq<char>) -> Seq<char>
    decreases text.len(),
{
    if text.len() > 0 && is_space(text.last()) {
        trimmed_end(text.drop_last())
    } else {
        text
    }
}

/// `text` without whitespace around it.
pub open spec fn trimmed(text: Seq<char>) -> Seq<char> {
    trimmed_end(trimmed_start(text))
}

/// A text without whitespace around it.
pub(crate) fn trim(text: &str) -> (trimmed_text: String)
    ensures
        trimmed_text@ == trimmed(text@),
{
    let whole = characters(text);
    let mut start: usize = 0;
    assert(text@.skip(0) =~= text@);
    while start < whole.len() && is_whitespace(whole[start])
        invariant
            start <= whole@.len(),
            whole@ == text@,
            trimmed_start(text@) == trimmed_start(text@.skip(start as int)),
        decreases whole@.len() - start,
    {
        proof {
            assert(text@.skip(start as int)[0] == whole@[start as int]);
            assert(text@.skip(start as int).drop_first() =~= text@.skip(start + 1));
        }
        start = start + 1;
    }
    proof {
        if start < whole@.len() {
            assert(text@.skip(start as int)[0] == whole@[start as int]);
        }
    }
    let ghost front = text@.skip(start as int);
    assert(trimmed_start(text@) == front);
    let mut end: usize = whole.len();
    assert(text@.subrange(start as int, end as int) =~= front);
    while end > start && is_whitespace(whole[end - 1])
        invariant
            start <= end <= whole@.len(),
            whole@ == text@,
            trimmed_end(front) == trimmed_end(text@.subrange(start as int, end as int)),
        decreases end,
    {
        proof {
            let here = text@.subrange(start as int, end as int);
            assert(here.last() == whole@[end - 1]);
            assert(here.drop_last() =~= text@.subrange(start as int, end - 1));
        }
        end = end - 1;
    }
    proof {
        let here = text@.subrange(start as int, end as int);
        if end > start {
            assert(here.last() == whole@[end - 1]);
        }
    }
    String::from_str(text.substring_char(start, end))
}

/// A text occurs at the end of one that ends with it.
pub(crate) proof fn lemma_contains_end(front: Seq<char>, part: Seq<char>)
    ensures
        contains(front + part, part),
{
    let whole = front + part;
    let start = front.len() as int;
    assert(whole.subrange(start, start + part.len()) =~= part);
}

/// What occurs in a text occurs in every longer one.
pub(crate) proof fn lemma_contains_more(
    front: Seq<char>,
    text: Seq<char>,
    back: Seq<char>,
    part: Seq<char>,
)
    requires
        contains(text, part),
    ensures
        contains(front + text + back, part),
        contains(front + text, part),
        contains(text + back, part),
{
    let i = choose|i: int|
        0 <= i <= text.len() - part.len() && #[trigger] text.subrange(i, i + part.len()) == part;
    let whole = front + text + back;
    let start = front.len() + i;
    assert(whole.subrange(start, start + part.len()) =~= part);
    assert((front + text).subrange(start, start + part.len()) =~= part);
    assert((text + back).subrange(i, i + part.len()) =~= part);
}

/// The number that a text of decimal digits says.
pub open spec fn decimal_value(text: Seq<char>) -> int
    decreases text.len(),
{
    if text.len() == 0 {
        0
    } else {
        10 * decimal_value(text.drop_last()) + (text.last() as u32 - 0x30)
    }
}

/// A number in decimal is digits only, has no needless zero in front, and reads back as the number.
pub proof fn law_decimals_read_back(value: nat)
    ensures
        decimal_value(decimal(value)) == value,
        decimal(value).len() >= 1,
        forall|i: int| 0 <= i < decimal(value).len() ==> '0' <= #[trigger] decimal(value)[i] <= '9',
        decimal(value).len() > 1 ==> decimal(value)[0] != '0',
    decreases value,
{
    reveal_with_fuel(decimal_value, 2);
    if value >= 10 {
        law_decimals_read_back(value / 10);
        let front = decimal(value / 10);
        assert(decimal(value).drop_last() =~= front);
        assert forall|i: int| 0 <= i < decimal(value).len() implies '0' <= #[trigger] decimal(
            value,
        )[i] <= '9' by {
            if i < front.len() {
                assert(decimal(value)[i] == front[i]);
            }
        }
        assert(decimal(value)[0] == front[0]);
        if front.len() == 1 && front[0] == '0' {
            assert(front.drop_last() =~= Seq::empty());
            assert(decimal_value(front) == 0);
        }
    } else {
        assert(decimal(value).drop_last() =~= Seq::empty());
    }
}

/// Numbers that are written alike are the same.
pub proof fn law_decimals_tell_numbers_apart(one: nat, other: nat)
    requires
        decimal(one) == decimal(other),
    ensures
        one == other,
{
    law_decimals_read_back(one);
    law_decimals_read_back(other);
}

proof fn lemma_trimmed_start(text: Seq<char>)
    ensures
        trimmed_start(text).len() <= text.len(),
        trimmed_start(text) == text.skip(text.len() - trimmed_start(text).len()),
        trimmed_start(text).len() > 0 ==> !is_space(trimmed_start(text)[0]),
        forall|i: int|
            0 <= i < text.len() - trimmed_start(text).len() ==> is_space(#[trigger] text[i]),
    decreases text.len(),
{
    if text.len() > 0 && is_space(text[0]) {
        let rest = text.drop_first();
        lemma_trimmed_start(rest);
        let cut = text.len() - trimmed_start(text).len();
        assert(rest.skip(cut - 1) =~= text.skip(cut));
        assert forall|i: int| 0 <= i < cut implies is_space(#[trigger] text[i]) by {
            if i > 0 {
                assert(is_space(rest[i - 1]));
            }
        }
    } else {
        assert(text.skip(0) =~= text);
    }
}

proof fn lemma_trimmed_end(text: Seq<char>)
    ensures
        trimmed_end(text).len() <= text.len(),
        trimmed_end(text) == text.take(trimmed_end(text).len() as int),
        trimmed_end(text).len() > 0 ==> !is_space(trimmed_end(text).last()),
        forall|i: int|
            trimmed_end(text).len() <= i < text.len() ==> is_space(#[trigger] text[i]),
    decreases text.len(),
{
    if text.len() > 0 && is_space(text.last()) {
        let rest = text.drop_last();
        lemma_trimmed_end(rest);
        let kept = trimmed_end(text).len() as int;
        assert(rest.take(kept) =~= text.take(kept));
        assert forall|i: int| kept <= i < text.len() implies is_space(#[trigger] text[i]) by {
            if i < text.len() - 1 {
                assert(is_space(rest[i]));
            }
        }
    } else {
        assert(text.take(text.len() as int) =~= text);
    }
}

/// Trimming takes whitespace off both ends, all of it and nothing else.
pub proof fn law_trimming_takes_whitespace_only(text: Seq<char>) -> (range: (int, int))
    ensures
        ({
            let (start, end) = range;
            &&& 0 <= start <= end <= text.len()
            &&& trimmed(text) == text.subrange(start, end)
            &&& forall|i: int| 0 <= i < start ==> is_space(#[trigger] text[i])
            &&& forall|i: int| end <= i < text.len() ==> is_space(#[trigger] text[i])
            &&& start < end ==> !is_space(text[start]) && !is_space(text[end - 1])
        }),
{
    let front = trimmed_start(text);
    lemma_trimmed_start(text);
    lemma_trimmed_end(front);
    let start = text.len() - front.len();
    let end = start + trimmed(text).len();
    assert(trimmed(text) =~= text.subrange(start, end));
    assert forall|i: int| end <= i < text.len() implies is_space(#[trigger] text[i]) by {
        assert(is_space(front[i - start]));
    }
    if start < end {
        assert(front[0] == text[start]);
        assert(trimmed(text).last() == text[end - 1]);
    }
    (start, end)
}

/// Case does not matter for the 26 letters and nothing else: two texts are the same exactly if they
/// are as long and at every place hold the same character, or the same letter.
pub proof fn law_case_is_ignored_for_letters_only(a: char, b: char)
    ensures
        ascii_lower(a) == ascii_lower(b) <==> a == b || (0x41 <= a as u32 <= 0x5a && b as u32
            == a as u32 + 32) || (0x41 <= b as u32 <= 0x5a && a as u32 == b as u32 + 32),
{
    let x = ascii_lower(a);
    let y = ascii_lower(b);
    if x as u32 == y as u32 {
        lemma_char_of_code(x, y);
    }
    if a as u32 == b as u32 {
        lemma_char_of_code(a, b);
    }
}

/// Blanks, tabs and line breaks are whitespace, and no printable character of ASCII is.
pub proof fn law_blanks_are_whitespace(character: char)
    ensures
        is_space(' '),
        is_space('\t'),
        is_space('\n'),
        is_space('\r'),
        0x21 <= character as u32 <= 0x7e ==> !is_space(character),
{
}

} // verus!
