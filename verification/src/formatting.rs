//! Numbers, sizes and kinds as text.

use vstd::prelude::*;

use crate::node::NodeKind;
use crate::text;

verus! {

/// Digits with a comma in front of every group of three from the right.
pub open spec fn separated(digits: Seq<char>) -> Seq<char>
    decreases digits.len(),
{
    if digits.len() <= 3 {
        digits
    } else {
        separated(digits.take(digits.len() - 3)) + seq![','] + digits.skip(digits.len() - 3)
    }
}

/// A number in decimal with separators.
pub open spec fn count_text(value: nat) -> Seq<char> {
    separated(text::decimal(value))
}

/// The three lowest decimal digits of a number.
spec fn low_digits(value: nat) -> Seq<char> {
    seq![
        text::digit(value / 100 % 10),
        text::digit(value / 10 % 10),
        text::digit(value % 10),
    ]
}

proof fn lemma_decimal_thousands(value: nat)
    requires
        value >= 1000,
    ensures
        text::decimal(value) == text::decimal(value / 1000) + low_digits(value),
        text::decimal(value / 1000).len() >= 1,
{
    assert(value / 10 / 10 == value / 100);
    assert(value / 100 / 10 == value / 1000);
    assert(text::decimal(value) == text::decimal(value / 10).push(text::digit(value % 10)));
    assert(text::decimal(value / 10) == text::decimal(value / 100).push(
        text::digit(value / 10 % 10),
    ));
    assert(text::decimal(value / 100) == text::decimal(value / 1000).push(
        text::digit(value / 100 % 10),
    ));
    assert(text::decimal(value) =~= text::decimal(value / 1000) + low_digits(value));
}

proof fn lemma_short_decimal(value: nat)
    requires
        value < 1000,
    ensures
        1 <= text::decimal(value).len() <= 3,
{
    reveal_with_fuel(text::decimal, 4);
}

/// Appends a number in decimal with separators.
fn push_count(output: &mut String, value: u64)
    ensures
        final(output)@ == old(output)@ + count_text(value as nat),
    decreases value,
{
    if value < 1000 {
        proof {
            lemma_short_decimal(value as nat);
        }
        text::push_decimal(output, value);
    } else {
        proof {
            let digits = text::decimal(value as nat);
            lemma_decimal_thousands(value as nat);
            assert(digits.take(digits.len() - 3) =~= text::decimal((value / 1000) as nat));
            assert(digits.skip(digits.len() - 3) =~= low_digits(value as nat));
            reveal_strlit(",");
            assert(","@ =~= seq![',']);
        }
        push_count(output, value / 1000);
        output.append(",");
        text::push_digit(output, value / 100 % 10);
        text::push_digit(output, value / 10 % 10);
        text::push_digit(output, value % 10);
        assert(output@ =~= old(output)@ + count_text(value as nat));
    }
}

/// A number in decimal with separators.
pub fn format_count(value: u64) -> (output: String)
    ensures
        output@ == count_text(value as nat),
{
    let mut output = String::new();
    push_count(&mut output, value);
    assert(output@ =~= count_text(value as nat));
    output
}

/// The distance of neighbouring floating-point numbers of 53 bits around `value`.
pub open spec fn spacing(value: nat) -> nat
    decreases value,
{
    if value < 0x20_0000_0000_0000 {
        1
    } else {
        2 * spacing(value / 2)
    }
}

/// The multiple of `step` nearest to `value`, of two equally near ones the even one.
pub open spec fn rounded(value: nat, step: nat) -> nat {
    let whole = value / step;
    let rest = value % step;
    if 2 * rest < step || (2 * rest == step && whole % 2 == 0) {
        whole * step
    } else {
        (whole + 1) * step
    }
}

/// A number of bytes as a floating-point number of 53 bits.
pub open spec fn as_double(bytes: nat) -> nat {
    rounded(bytes, spacing(bytes))
}

/// Number of bytes of the unit that a size is given in.
pub open spec fn unit_size(size: nat) -> nat {
    if size < 0x10_0000 {
        0x400
    } else if size < 0x4000_0000 {
        0x10_0000
    } else if size < 0x100_0000_0000 {
        0x4000_0000
    } else if size < 0x4_0000_0000_0000 {
        0x100_0000_0000
    } else {
        0x4_0000_0000_0000
    }
}

/// Name of the unit that a size is given in.
pub open spec fn unit_name(size: nat) -> Seq<char> {
    if size < 0x10_0000 {
        "KiB"@
    } else if size < 0x4000_0000 {
        "MiB"@
    } else if size < 0x100_0000_0000 {
        "GiB"@
    } else if size < 0x4_0000_0000_0000 {
        "TiB"@
    } else {
        "PiB"@
    }
}

/// A size in bytes below one KiB, otherwise in the largest unit that it fills, up to PiB, with two
/// decimals, rounded to even. As the size is a floating-point number, of very large ones only the 53
/// leading bits count.
pub open spec fn size_text(bytes: nat) -> Seq<char> {
    if bytes < 1024 {
        text::decimal(bytes) + " B"@
    } else {
        let size = as_double(bytes);
        let hundredths = rounded(size * 100, unit_size(size)) / unit_size(size);
        text::decimal(hundredths / 100) + "."@ + seq![
            text::digit(hundredths / 10 % 10),
            text::digit(hundredths % 10),
        ] + " "@ + unit_name(size)
    }
}

/// The distance of neighbouring floating-point numbers, which doubles with every further bit.
fn double_spacing(value: u64) -> (step: u64)
    ensures
        step == spacing(value as nat),
        step >= 1,
        value >= 0x20_0000_0000_0000 ==> step * 0x10_0000_0000_0000 <= value,
        value < 0x20_0000_0000_0000 ==> step == 1,
    decreases value,
{
    if value < 0x20_0000_0000_0000 {
        1
    } else {
        let half: u64 = double_spacing(value / 2);
        2 * half
    }
}

/// The nearest multiple of a step.
fn round_to(value: u128, step: u128) -> (nearest: u128)
    requires
        step >= 1,
        value + step <= 0xffff_ffff_ffff_ffff_ffff_ffff,
        step <= 0xffff_ffff_ffff_ffff,
    ensures
        nearest == rounded(value as nat, step as nat),
        nearest <= value + step,
        nearest % step == 0,
{
    let whole: u128 = value / step;
    let rest: u128 = value % step;
    proof {
        vstd::arithmetic::div_mod::lemma_fundamental_div_mod(value as int, step as int);
        assert((whole + 1) * step == whole * step + step) by (nonlinear_arith);
        assert(step * whole == whole * step) by (nonlinear_arith);
        vstd::arithmetic::div_mod::lemma_mod_multiples_basic(whole as int, step as int);
        vstd::arithmetic::div_mod::lemma_mod_multiples_basic(whole + 1, step as int);
        assert(whole <= value) by (nonlinear_arith)
            requires
                whole * step <= value,
                step >= 1,
                whole >= 0,
        ;
    }
    if 2 * rest < step || (2 * rest == step && whole % 2 == 0) {
        whole * step
    } else {
        (whole + 1) * step
    }
}

/// A size with its unit.
pub fn format_size(bytes: u64) -> (output: String)
    ensures
        output@ == size_text(bytes as nat),
{
    let mut output = String::new();
    if bytes < 1024 {
        text::push_decimal(&mut output, bytes);
        output.append(" B");
        assert(output@ =~= size_text(bytes as nat));
        return output;
    }
    let step: u64 = double_spacing(bytes);
    let size: u128 = round_to(bytes as u128, step as u128);
    let (unit, name): (u128, &str) = if size < 0x10_0000 {
        (0x400, "KiB")
    } else if size < 0x4000_0000 {
        (0x10_0000, "MiB")
    } else if size < 0x100_0000_0000 {
        (0x4000_0000, "GiB")
    } else if size < 0x4_0000_0000_0000 {
        (0x100_0000_0000, "TiB")
    } else {
        (0x4_0000_0000_0000, "PiB")
    };
    let hundredths: u64 = (round_to(size * 100, unit) / unit) as u64;
    text::push_decimal(&mut output, hundredths / 100);
    output.append(".");
    text::push_digit(&mut output, hundredths / 10 % 10);
    text::push_digit(&mut output, hundredths % 10);
    output.append(" ");
    output.append(name);
    assert(output@ =~= size_text(bytes as nat));
    output
}

/// The name of a kind.
pub open spec fn kind_text(kind: NodeKind) -> Seq<char> {
    match kind {
        NodeKind::File => "file"@,
        NodeKind::Directory => "directory"@,
        NodeKind::Symlink => "symlink"@,
        NodeKind::Other => "other"@,
    }
}

/// The name of a kind.
pub fn kind_name(kind: NodeKind) -> (name: &'static str)
    ensures
        name@ == kind_text(kind),
{
    match kind {
        NodeKind::File => "file",
        NodeKind::Directory => "directory",
        NodeKind::Symlink => "symlink",
        NodeKind::Other => "other",
    }
}

/// A text without its commas.
pub open spec fn without_commas(text: Seq<char>) -> Seq<char> {
    text.filter(|character: char| character != ',')
}

/// No separator occurs in digits.
proof fn lemma_no_commas(digits: Seq<char>)
    requires
        forall|i: int| 0 <= i < digits.len() ==> #[trigger] digits[i] != ',',
    ensures
        without_commas(digits) == digits,
    decreases digits.len(),
{
    reveal(Seq::filter);
    if digits.len() > 0 {
        lemma_no_commas(digits.drop_last());
        assert(digits.drop_last().push(digits.last()) =~= digits);
    }
}

proof fn lemma_separated(digits: Seq<char>)
    requires
        forall|i: int| 0 <= i < digits.len() ==> #[trigger] digits[i] != ',',
    ensures
        without_commas(separated(digits)) == digits,
        forall|i: int|
            0 <= i < separated(digits).len() ==> (#[trigger] separated(digits)[i] == ',' <==> (
            separated(digits).len() - i) % 4 == 0),
        digits.len() > 0 ==> separated(digits).len() > 0,
    decreases digits.len(),
{
    let keep = |character: char| character != ',';
    if digits.len() <= 3 {
        lemma_no_commas(digits);
    } else {
        let front = digits.take(digits.len() - 3);
        let back = digits.skip(digits.len() - 3);
        lemma_separated(front);
        lemma_no_commas(back);
        let text = separated(digits);
        assert(text == separated(front) + seq![','] + back);
        Seq::filter_distributes_over_add(separated(front) + seq![','], back, keep);
        Seq::filter_distributes_over_add(separated(front), seq![','], keep);
        assert(seq![','].filter(keep) =~= Seq::empty()) by {
            reveal_with_fuel(Seq::filter, 2);
            assert(seq![','].drop_last() =~= Seq::empty());
        }
        assert(without_commas(text) =~= front + back);
        assert(front + back =~= digits);
        let size = separated(front).len() as int;
        assert forall|i: int| 0 <= i < text.len() implies (#[trigger] text[i] == ',' <==> (
        text.len() - i) % 4 == 0) by {
            if i < size {
                assert(text[i] == separated(front)[i]);
                assert(text.len() - i == size - i + 4);
            } else if i > size {
                assert(text[i] == back[i - size - 1]);
            }
        }
    }
}

/// A count is its decimal digits with a comma in front of every third one from the right: without
/// the commas it reads back as the number.
pub proof fn law_counts_read_back(value: nat)
    ensures
        text::decimal_value(without_commas(count_text(value))) == value,
        forall|i: int|
            0 <= i < count_text(value).len() ==> (#[trigger] count_text(value)[i] == ',' <==> (
            count_text(value).len() - i) % 4 == 0),
{
    text::law_decimals_read_back(value);
    lemma_separated(text::decimal(value));
}

/// The multiple that a number is rounded to is nearest to it.
pub proof fn law_rounding_is_nearest(value: nat, step: nat)
    requires
        step > 0,
    ensures
        rounded(value, step) % step == 0,
        2 * (rounded(value, step) - value) <= step,
        2 * (value - rounded(value, step)) <= step,
{
    vstd::arithmetic::div_mod::lemma_fundamental_div_mod(value as int, step as int);
    let whole = value / step;
    assert((whole + 1) * step == whole * step + step) by (nonlinear_arith);
    assert(step * whole == whole * step) by (nonlinear_arith);
    vstd::arithmetic::div_mod::lemma_mod_multiples_basic(whole as int, step as int);
    vstd::arithmetic::div_mod::lemma_mod_multiples_basic((whole + 1) as int, step as int);
}

/// A size from one KiB to eight PiB is given in the largest unit that it fills, in hundredths of the
/// unit, to the nearest of them.
pub proof fn law_sizes_are_near(bytes: nat) -> (parts: (nat, nat))
    requires
        1024 <= bytes < 0x20_0000_0000_0000,
    ensures
        ({
            let (hundredths, unit) = parts;
            &&& 2 * (hundredths * unit - 100 * bytes) <= unit
            &&& 2 * (100 * bytes - hundredths * unit) <= unit
            &&& unit <= bytes
            &&& bytes < 1024 * unit || unit == 1024 * 1024 * 1024 * 1024 * 1024
            &&& size_text(bytes) == text::decimal(hundredths / 100) + "."@ + seq![
                text::digit(hundredths / 10 % 10),
                text::digit(hundredths % 10),
            ] + " "@ + if unit == 1024 {
                "KiB"@
            } else if unit == 1024 * 1024 {
                "MiB"@
            } else if unit == 1024 * 1024 * 1024 {
                "GiB"@
            } else if unit == 1024 * 1024 * 1024 * 1024 {
                "TiB"@
            } else {
                "PiB"@
            }
        }),
{
    let size = as_double(bytes);
    assert(spacing(bytes) == 1);
    assert(bytes % 1 == 0);
    assert(bytes / 1 == bytes);
    assert(size == bytes);
    let unit = unit_size(size);
    let nearest = rounded(size * 100, unit);
    law_rounding_is_nearest(size * 100, unit);
    vstd::arithmetic::div_mod::lemma_fundamental_div_mod(nearest as int, unit as int);
    let hundredths = nearest / unit;
    assert(hundredths * unit == nearest) by (nonlinear_arith)
        requires
            nearest == unit * hundredths,
    ;
    (hundredths, unit)
}

/// Kinds have names of their own.
pub proof fn law_kinds_are_told_apart(one: NodeKind, other: NodeKind)
    requires
        kind_text(one) == kind_text(other),
    ensures
        one == other,
{
    reveal_strlit("file");
    reveal_strlit("directory");
    reveal_strlit("symlink");
    reveal_strlit("other");
    assert("file"@.len() == 4 && "directory"@.len() == 9 && "symlink"@.len() == 7 && "other"@.len()
        == 5);
}

} // verus!
