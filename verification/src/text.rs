//! Text that is built digit by digit: numerals and elapsed times.

use vstd::prelude::*;
use vstd::string::StringExecFns;

verus! {

/// The character that stands for the digit `d` of a numeral, lower case above nine.
pub open spec fn digit_char(d: nat) -> char {
    if d < 10 {
        ('0' as nat + d) as char
    } else {
        ('a' as nat + d - 10) as char
    }
}

/// The numeral of `n` to the base `base`, most significant digit first, without leading zeros.
pub open spec fn numeral(n: nat, base: nat) -> Seq<char>
    decreases n,
{
    if base < 2 || n < base {
        seq![digit_char(n)]
    } else {
        proof {
            vstd::arithmetic::div_mod::lemma_div_decreases(n as int, base as int);
        }
        numeral(n / base, base).push(digit_char(n % base))
    }
}

/// The text of one digit.
fn digit_text(d: u64) -> (text: &'static str)
    requires
        d < 16,
    ensures
        text@ == seq![digit_char(d as nat)],
{
    proof {
        reveal_strlit("0");
        reveal_strlit("1");
        reveal_strlit("2");
        reveal_strlit("3");
        reveal_strlit("4");
        reveal_strlit("5");
        reveal_strlit("6");
        reveal_strlit("7");
        reveal_strlit("8");
        reveal_strlit("9");
        reveal_strlit("a");
        reveal_strlit("b");
        reveal_strlit("c");
        reveal_strlit("d");
        reveal_strlit("e");
        reveal_strlit("f");
    }
    match d {
        0 => "0",
        1 => "1",
        2 => "2",
        3 => "3",
        4 => "4",
        5 => "5",
        6 => "6",
        7 => "7",
        8 => "8",
        9 => "9",
        10 => "a",
        11 => "b",
        12 => "c",
        13 => "d",
        14 => "e",
        _ => "f",
    }
}

/// Appends the numeral of `n` to the base `base`.
pub(crate) fn push_numeral(out: &mut String, n: u64, base: u64)
    requires
        2 <= base <= 16,
    ensures
        final(out)@ == old(out)@ + numeral(n as nat, base as nat),
    decreases n,
{
    if n < base {
        out.append(digit_text(n));
    } else {
        proof {
            vstd::arithmetic::div_mod::lemma_div_decreases(n as int, base as int);
        }
        push_numeral(out, n / base, base);
        out.append(digit_text(n % base));
    }
}

/// What is shown of an age of `secs` seconds: the largest unit among seconds, minutes, hours and
/// days of which at least one is full, and how many of it are full.
pub open spec fn duration_text(secs: nat) -> Seq<char> {
    if secs < 60 {
        numeral(secs, 10) + "s ago"@
    } else if secs < 3600 {
        numeral(secs / 60, 10) + "m ago"@
    } else if secs < 86400 {
        numeral(secs / 3600, 10) + "h ago"@
    } else {
        numeral(secs / 86400, 10) + "d ago"@
    }
}

/// Formats an age that is given in whole seconds.
pub fn format_duration(secs: u64) -> (text: String)
    ensures
        text@ == duration_text(secs as nat),
        tells_age(text@, secs as int),
{
    proof {
        law_age_in_largest_unit(secs as nat);
    }
    let mut text = String::new();
    if secs < 60 {
        push_numeral(&mut text, secs, 10);
        text.append("s ago");
    } else if secs < 3600 {
        push_numeral(&mut text, secs / 60, 10);
        text.append("m ago");
    } else if secs < 86400 {
        push_numeral(&mut text, secs / 3600, 10);
        text.append("h ago");
    } else {
        push_numeral(&mut text, secs / 86400, 10);
        text.append("d ago");
    }
    text
}

/// A numeral tells its number: two numbers with the same numeral to the same base are equal.
pub proof fn law_numeral_injective(a: nat, b: nat, base: nat)
    requires
        2 <= base <= 16,
        numeral(a, base) == numeral(b, base),
    ensures
        a == b,
    decreases a,
{
    let na = numeral(a, base);
    let nb = numeral(b, base);
    lemma_numeral_length(a, base);
    lemma_numeral_length(b, base);
    if a < base {
        assert(na.len() == 1);
        assert(na[0] == digit_char(a));
        assert(nb[0] == digit_char(b));
    } else {
        assert(nb.len() > 1);
        assert(na.last() == digit_char(a % base));
        assert(nb.last() == digit_char(b % base));
        vstd::arithmetic::div_mod::lemma_mod_bound(a as int, base as int);
        vstd::arithmetic::div_mod::lemma_mod_bound(b as int, base as int);
        assert(a % base == b % base);
        assert(na.drop_last() == numeral(a / base, base));
        assert(nb.drop_last() == numeral(b / base, base));
        vstd::arithmetic::div_mod::lemma_div_decreases(a as int, base as int);
        law_numeral_injective(a / base, b / base, base);
        vstd::arithmetic::div_mod::lemma_fundamental_div_mod(a as int, base as int);
        vstd::arithmetic::div_mod::lemma_fundamental_div_mod(b as int, base as int);
    }
}

/// A numeral has one digit exactly when its number is below the base, and never none.
proof fn lemma_numeral_length(n: nat, base: nat)
    requires
        2 <= base,
    ensures
        numeral(n, base).len() >= 1,
        numeral(n, base).len() == 1 <==> n < base,
    decreases n,
{
    if n >= base {
        vstd::arithmetic::div_mod::lemma_div_decreases(n as int, base as int);
        lemma_numeral_length(n / base, base);
    }
}

/// The number that a digit stands for, and `-1` for any other character.
pub open spec fn digit_value(c: char) -> int {
    if '0' as int <= c as int <= '9' as int {
        c as int - '0' as int
    } else if 'a' as int <= c as int <= 'f' as int {
        c as int - 'a' as int + 10
    } else {
        -1
    }
}

/// The number that one reads from digits, the most significant first.
pub open spec fn number_read(digits: Seq<char>, base: int) -> int
    decreases digits.len(),
{
    if digits.len() == 0 {
        0
    } else {
        number_read(digits.drop_last(), base) * base + digit_value(digits.last())
    }
}

/// One reads `n` from `digits`: all of them are digits to the base `base`, and there are no leading
/// zeros.
pub open spec fn reads_as(digits: Seq<char>, n: int, base: int) -> bool {
    &&& digits.len() > 0
    &&& forall|i: int| 0 <= i < digits.len() ==> 0 <= digit_value(#[trigger] digits[i]) < base
    &&& digits.len() > 1 ==> digits[0] != '0'
    &&& number_read(digits, base) == n
}

/// One reads the number from its numeral.
pub proof fn law_numeral_read_back(n: nat, base: nat)
    requires
        2 <= base <= 16,
    ensures
        reads_as(numeral(n, base), n as int, base as int),
    decreases n,
{
    let digits = numeral(n, base);
    let b = base as int;
    if n < base {
        assert(digits =~= seq![digit_char(n)]);
        assert(digits.drop_last() =~= seq![]);
        assert(number_read(digits.drop_last(), b) * b == 0) by (nonlinear_arith)
            requires
                number_read(digits.drop_last(), b) == 0,
        ;
    } else {
        let front = numeral(n / base, base);
        vstd::arithmetic::div_mod::lemma_div_decreases(n as int, b);
        vstd::arithmetic::div_mod::lemma_div_non_zero(n as int, b);
        vstd::arithmetic::div_mod::lemma_mod_bound(n as int, b);
        vstd::arithmetic::div_mod::lemma_fundamental_div_mod(n as int, b);
        law_numeral_read_back(n / base, base);
        assert(digits.drop_last() =~= front);
        assert(number_read(front, b) * b == b * (n as int / b)) by (nonlinear_arith)
            requires
                number_read(front, b) == n as int / b,
        ;
        assert forall|i: int| 0 <= i < digits.len() implies 0 <= digit_value(
            #[trigger] digits[i],
        ) < base by {
            if i < front.len() {
                assert(digits[i] == front[i]);
            }
        }
        assert(digits[0] == front[0]);
        if front.len() == 1 && front[0] == '0' {
            assert(front.drop_last() =~= seq![]);
            assert(number_read(front.drop_last(), b) * b == 0) by (nonlinear_arith)
                requires
                    number_read(front.drop_last(), b) == 0,
            ;
            assert(number_read(front, b) == 0);
        }
    }
}

/// `text` says how many full units have passed in `secs` seconds, in a unit of `unit` seconds that is
/// called `name`.
pub open spec fn says_full_units(text: Seq<char>, secs: int, unit: int, name: Seq<char>) -> bool {
    exists|digits: Seq<char>, count: int| #[trigger]
        reads_as(digits, count, 10) && text == digits + name && unit * count <= secs < unit * (count
            + 1)
}

/// `text` tells an age of `secs` seconds: less than a minute in seconds, less than an hour in minutes,
/// less than a day in hours, and any other in days. What it says is how many of them are full.
pub open spec fn tells_age(text: Seq<char>, secs: int) -> bool {
    &&& secs < 60 ==> says_full_units(text, secs, 1, "s ago"@)
    &&& 60 <= secs < 3600 ==> says_full_units(text, secs, 60, "m ago"@)
    &&& 3600 <= secs < 86400 ==> says_full_units(text, secs, 3600, "h ago"@)
    &&& 86400 <= secs ==> says_full_units(text, secs, 86400, "d ago"@)
}

/// What is shown of an age tells it in the largest unit of which at least one is full.
pub proof fn law_age_in_largest_unit(secs: nat)
    ensures
        tells_age(duration_text(secs), secs as int),
{
    law_numeral_read_back(secs, 10);
    law_numeral_read_back(secs / 60, 10);
    law_numeral_read_back(secs / 3600, 10);
    law_numeral_read_back(secs / 86400, 10);
}

} // verus!
