//! The names of the log files: `<generation>.log`, the generation in
//! decimal digits.

use vstd::prelude::*;
use vstd::string::{StrSliceExecFns, StringExecFns};

verus! {

/// The number that a decimal digit stands for.
pub open spec fn digit_value(c: char) -> Option<nat> {
    if c == '0' {
        Some(0)
    } else if c == '1' {
        Some(1)
    } else if c == '2' {
        Some(2)
    } else if c == '3' {
        Some(3)
    } else if c == '4' {
        Some(4)
    } else if c == '5' {
        Some(5)
    } else if c == '6' {
        Some(6)
    } else if c == '7' {
        Some(7)
    } else if c == '8' {
        Some(8)
    } else if c == '9' {
        Some(9)
    } else {
        None
    }
}

/// The decimal digit that stands for a number below ten.
pub open spec fn digit_char(d: nat) -> char {
    if d == 0 {
        '0'
    } else if d == 1 {
        '1'
    } else if d == 2 {
        '2'
    } else if d == 3 {
        '3'
    } else if d == 4 {
        '4'
    } else if d == 5 {
        '5'
    } else if d == 6 {
        '6'
    } else if d == 7 {
        '7'
    } else if d == 8 {
        '8'
    } else {
        '9'
    }
}

/// Whether every character is a decimal digit.
pub open spec fn all_digits(text: Seq<char>) -> bool {
    forall|i: int| 0 <= i < text.len() ==> digit_value(#[trigger] text[i]) is Some
}

/// The number that decimal digits spell; leading zeros count for nothing.
pub open spec fn number_of(digits: Seq<char>) -> nat
    decreases digits.len(),
{
    if digits.len() == 0 {
        0
    } else {
        number_of(digits.drop_last()) * 10 + digit_value(digits.last()).unwrap_or(0)
    }
}

/// A number in decimal digits, without leading zeros.
pub open spec fn decimal(n: nat) -> Seq<char>
    decreases n,
{
    if n < 10 {
        seq![digit_char(n)]
    } else {
        decimal(n / 10).push(digit_char(n % 10))
    }
}

/// The ending of the name of a log file.
pub open spec fn log_suffix() -> Seq<char> {
    seq!['.', 'l', 'o', 'g']
}

/// The name of the log file of generation `gen`.
pub open spec fn log_name(gen: u64) -> Seq<char> {
    decimal(gen as nat) + log_suffix()
}

/// The generation that a file name gives: the name is one or more decimal
/// digits and `.log`, and the digits spell a number of 64 bits. Other
/// files of a data directory are no logs.
pub open spec fn generation_of(name: Seq<char>) -> Option<u64> {
    let split = name.len() - 4;
    if name.len() > 4 && name.skip(split) == log_suffix() && all_digits(name.take(split))
        && number_of(name.take(split)) <= u64::MAX {
        Some(number_of(name.take(split)) as u64)
    } else {
        None
    }
}

/// The numbers grow strictly.
pub open spec fn strictly_ascending(gens: Seq<u64>) -> bool {
    forall|i: int, j: int| 0 <= i < j < gens.len() ==> gens[i] < gens[j]
}

/// The digits of a number spell that number.
pub proof fn lemma_decimal(n: nat)
    ensures
        decimal(n).len() >= 1,
        all_digits(decimal(n)),
        number_of(decimal(n)) == n,
    decreases n,
{
    if n < 10 {
        assert(decimal(n).drop_last() =~= Seq::<char>::empty());
        assert(number_of(Seq::<char>::empty()) == 0);
    } else {
        lemma_decimal(n / 10);
        assert(decimal(n).drop_last() =~= decimal(n / 10));
    }
}

/// The name of the log file of a generation gives that generation back.
pub proof fn law_name_round_trip(gen: u64)
    ensures
        generation_of(log_name(gen)) == Some(gen),
{
    let digits = decimal(gen as nat);
    let name = log_name(gen);
    lemma_decimal(gen as nat);
    assert(name.take(name.len() - 4) =~= digits);
    assert(name.skip(name.len() - 4) =~= log_suffix());
}

/// More digits spell no smaller number.
proof fn lemma_number_grows(digits: Seq<char>, n: int)
    requires
        0 <= n <= digits.len(),
    ensures
        number_of(digits.take(n)) <= number_of(digits),
    decreases digits.len() - n,
{
    if n < digits.len() {
        let longer = digits.take(n + 1);
        assert(longer.drop_last() =~= digits.take(n));
        lemma_number_grows(digits, n + 1);
    } else {
        assert(digits.take(n) =~= digits);
    }
}

/// The number of a decimal digit.
fn digit_of(c: char) -> (d: Option<u64>)
    ensures
        match d {
            Some(d) => digit_value(c) == Some(d as nat),
            None => digit_value(c) is None,
        },
{
    if c == '0' {
        Some(0)
    } else if c == '1' {
        Some(1)
    } else if c == '2' {
        Some(2)
    } else if c == '3' {
        Some(3)
    } else if c == '4' {
        Some(4)
    } else if c == '5' {
        Some(5)
    } else if c == '6' {
        Some(6)
    } else if c == '7' {
        Some(7)
    } else if c == '8' {
        Some(8)
    } else if c == '9' {
        Some(9)
    } else {
        None
    }
}

/// The text of a decimal digit.
fn digit_text(d: u64) -> (text: &'static str)
    requires
        d < 10,
    ensures
        text@ == seq![digit_char(d as nat)],
{
    proof {
        reveal_strlit("0");
        reveal_strlit("1");
        reveal_strlit("2");
        reveal_strlit("3");
        reveal_strlit("4");
        reveal_strlit("5");
        reveal_strlit("6");
        reveal_strlit("7");
        reveal_strlit("8");
        reveal_strlit("9");
    }
    let text = if d == 0 {
        "0"
    } else if d == 1 {
        "1"
    } else if d == 2 {
        "2"
    } else if d == 3 {
        "3"
    } else if d == 4 {
        "4"
    } else if d == 5 {
        "5"
    } else if d == 6 {
        "6"
    } else if d == 7 {
        "7"
    } else if d == 8 {
        "8"
    } else {
        "9"
    };
    assert(text@ =~= seq![digit_char(d as nat)]);
    text
}

/// A number in decimal digits.
fn decimal_text(n: u64) -> (text: String)
    ensures
        text@ == decimal(n as nat),
    decreases n,
{
    if n < 10 {
        String::from_str(digit_text(n))
    } else {
        let mut text = decimal_text(n / 10);
        text.append(digit_text(n % 10));
        assert(text@ =~= decimal(n as nat));
        text
    }
}

/// The path of the log file of generation `gen`, from the data directory.
pub fn log_path(gen: u64) -> (path: String)
    ensures
        path@ == log_name(gen),
{
    let mut path = decimal_text(gen);
    proof {
        reveal_strlit(".log");
        assert(".log"@ =~= log_suffix());
    }
    path.append(".log");
    path
}

/// The generation that the name of a file gives, if it is the name of a
/// log.
pub fn parse_generation(name: &str) -> (gen: Option<u64>)
    ensures
        gen == generation_of(name@),
{
    let len = name.unicode_len();
    if len <= 4 {
        return None;
    }
    let split = len - 4;
    if name.get_char(split) != '.' || name.get_char(split + 1) != 'l' || name.get_char(split + 2)
        != 'o' || name.get_char(split + 3) != 'g' {
        assert(name@.skip(split as int)[0] == name@[split as int]);
        assert(name@.skip(split as int)[1] == name@[split + 1]);
        assert(name@.skip(split as int)[2] == name@[split + 2]);
        assert(name@.skip(split as int)[3] == name@[split + 3]);
        return None;
    }
    assert(name@.skip(split as int) =~= log_suffix());
    let ghost digits = name@.take(split as int);
    let mut value: u64 = 0;
    let mut i: usize = 0;
    while i < split
        invariant
            i <= split,
            split + 4 == name@.len(),
            digits == name@.take(split as int),
            all_digits(digits.take(i as int)),
            value == number_of(digits.take(i as int)),
        decreases split - i,
    {
        let ghost longer = digits.take(i + 1);
        proof {
            assert(longer.drop_last() =~= digits.take(i as int));
            assert(longer.last() == name@[i as int]);
            lemma_number_grows(digits, i + 1);
        }
        let d = match digit_of(name.get_char(i)) {
            Some(d) => d,
            None => {
                assert(digit_value(digits[i as int]) is None);
                return None;
            },
        };
        value = match value.checked_mul(10) {
            Some(tens) => match tens.checked_add(d) {
                Some(sum) => sum,
                None => {
                    return None;
                },
            },
            None => {
                return None;
            },
        };
        assert forall|j: int| 0 <= j < longer.len() implies digit_value(
            #[trigger] longer[j],
        ) is Some by {
            if j < i {
                assert(longer[j] == digits.take(i as int)[j]);
            }
        }
        i += 1;
    }
    assert(digits.take(split as int) =~= digits);
    Some(value)
}

/// Puts `gen` into a vector of strictly growing numbers, unless it is
/// there.
fn insert_sorted(gens: &mut Vec<u64>, gen: u64)
    requires
        strictly_ascending(old(gens)@),
    ensures
        strictly_ascending(final(gens)@),
        forall|g: u64| final(gens)@.contains(g) <==> old(gens)@.contains(g) || g == gen,
{
    let mut at: usize = 0;
    while at < gens.len() && gens[at] < gen
        invariant
            at <= gens@.len(),
            gens@ == old(gens)@,
            forall|j: int| 0 <= j < at ==> gens@[j] < gen,
        decreases gens@.len() - at,
    {
        at += 1;
    }
    if at < gens.len() && gens[at] == gen {
        assert(gens@.contains(gen));
        return ;
    }
    gens.insert(at, gen);
    proof {
        let before = old(gens)@;
        let after = gens@;
        assert forall|i: int, j: int| 0 <= i < j < after.len() implies after[i] < after[j] by {
            if j < at {
                assert(after[i] == before[i] && after[j] == before[j]);
            } else if j == at {
                assert(after[i] == before[i]);
            } else if i < at {
                assert(after[i] == before[i] && after[j] == before[j - 1]);
                assert(before[i] < gen);
                if at < before.len() {
                    assert(at <= j - 1);
                    assert(before[at as int] <= before[j - 1]) by {
                        if at < j - 1 {
                            assert(before[at as int] < before[j - 1]);
                        }
                    }
                }
            } else if i == at {
                assert(after[j] == before[j - 1]);
                assert(before[at as int] <= before[j - 1]) by {
                    if at < j - 1 {
                        assert(before[at as int] < before[j - 1]);
                    }
                }
            } else {
                assert(after[i] == before[i - 1] && after[j] == before[j - 1]);
            }
        }
        assert forall|g: u64| after.contains(g) <==> before.contains(g) || g == gen by {
            if after.contains(g) {
                let k = choose|k: int| 0 <= k < after.len() && after[k] == g;
                if k < at {
                    assert(before[k] == g);
                } else if k > at {
                    assert(before[k - 1] == g);
                }
            }
            if before.contains(g) {
                let k = choose|k: int| 0 <= k < before.len() && before[k] == g;
                if k < at {
                    assert(after[k] == g);
                } else {
                    assert(after[k + 1] == g);
                }
            }
            if g == gen {
                assert(after[at as int] == g);
            }
        }
    }
}

/// The generations of the logs among the files of a data directory, in
/// ascending order, each once. Names that are not those of logs are
/// passed over.
pub fn sorted_gen_list(names: &Vec<String>) -> (gens: Vec<u64>)
    ensures
        strictly_ascending(gens@),
        forall|g: u64|
            gens@.contains(g) <==> exists|i: int|
                0 <= i < names@.len() && generation_of(#[trigger] names@[i]@) == Some(g),
{
    let mut gen_list: Vec<u64> = Vec::new();
    let mut n: usize = 0;
    while n < names.len()
        invariant
            n <= names@.len(),
            strictly_ascending(gen_list@),
            forall|g: u64|
                gen_list@.contains(g) <==> exists|i: int|
                    0 <= i < n && generation_of(#[trigger] names@[i]@) == Some(g),
        decreases names@.len() - n,
    {
        let ghost before = gen_list@;
        if let Some(gen) = parse_generation(names[n].as_str()) {
            insert_sorted(&mut gen_list, gen);
        }
        proof {
            assert forall|g: u64|
                gen_list@.contains(g) <==> exists|i: int|
                    0 <= i < n + 1 && generation_of(#[trigger] names@[i]@) == Some(g) by {
                if before.contains(g) {
                    let i = choose|i: int|
                        0 <= i < n && generation_of(#[trigger] names@[i]@) == Some(g);
                    assert(0 <= i < n + 1 && generation_of(names@[i]@) == Some(g));
                }
                if generation_of(names@[n as int]@) == Some(g) {
                    assert(gen_list@.contains(g));
                }
                if exists|i: int| 0 <= i < n + 1 && generation_of(#[trigger] names@[i]@) == Some(g) {
                    let i = choose|i: int|
                        0 <= i < n + 1 && generation_of(#[trigger] names@[i]@) == Some(g);
                    if i < n {
                        assert(before.contains(g));
                    }
                }
            }
        }
        n += 1;
    }
    gen_list
}

} // verus!
