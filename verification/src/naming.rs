//! How log files are named, and how the logs of a directory are found.
//!
//! The log of generation `g` is the file `<g>.log`, with `g` in decimal. A
//! file of a directory is a log when its name ends in `.log` and what stands
//! before is a number: digits, with or without a `+` in front.

use vstd::prelude::*;
use vstd::string::*;

verus! {

/// The character of a decimal digit.
pub open spec fn digit_char(digit: int) -> char {
    if digit == 0 {
        '0'
    } else if digit == 1 {
        '1'
    } else if digit == 2 {
        '2'
    } else if digit == 3 {
        '3'
    } else if digit == 4 {
        '4'
    } else if digit == 5 {
        '5'
    } else if digit == 6 {
        '6'
    } else if digit == 7 {
        '7'
    } else if digit == 8 {
        '8'
    } else {
        '9'
    }
}

/// The decimal digit that a character stands for, or -1.
pub open spec fn digit_value(c: char) -> int {
    if c == '0' {
        0
    } else if c == '1' {
        1
    } else if c == '2' {
        2
    } else if c == '3' {
        3
    } else if c == '4' {
        4
    } else if c == '5' {
        5
    } else if c == '6' {
        6
    } else if c == '7' {
        7
    } else if c == '8' {
        8
    } else if c == '9' {
        9
    } else {
        -1
    }
}

/// The decimal form of a number, without leading zeros.
pub open spec fn digits(n: nat) -> Seq<char>
    decreases n,
{
    if n < 10 {
        seq![digit_char(n as int)]
    } else {
        digits(n / 10).push(digit_char((n % 10) as int))
    }
}

/// Every character is a decimal digit.
pub open spec fn all_digits(text: Seq<char>) -> bool {
    forall|i: int| 0 <= i < text.len() ==> digit_value(#[trigger] text[i]) >= 0
}

/// The number that a string of digits says.
pub open spec fn value_of(text: Seq<char>) -> nat
    decreases text.len(),
{
    if text.len() == 0 {
        0
    } else {
        (value_of(text.drop_last()) * 10 + digit_value(text.last())) as nat
    }
}

/// The number that `text` says: digits, after a `+` or without one, whose
/// value fits 64 bits.
pub open spec fn parse_gen(text: Seq<char>) -> Option<u64> {
    let body = if text.len() > 0 && text[0] == '+' {
        text.skip(1)
    } else {
        text
    };
    if body.len() > 0 && all_digits(body) && value_of(body) <= u64::MAX {
        Some(value_of(body) as u64)
    } else {
        None
    }
}

/// The ending of the name of a log file.
pub open spec fn log_suffix() -> Seq<char> {
    seq!['.', 'l', 'o', 'g']
}

/// The name of the log file of generation `gen`.
pub open spec fn log_name(gen: u64) -> Seq<char> {
    digits(gen as nat) + log_suffix()
}

/// The generation of the log whose file has this name, or `None` where the
/// name is not that of a log.
pub open spec fn file_gen(name: Seq<char>) -> Option<u64> {
    if name.len() >= 4 && name.skip(name.len() - 4) == log_suffix() {
        parse_gen(name.take(name.len() - 4))
    } else {
        None
    }
}

/// The path of the log of generation `gen` in the directory `dir`: the
/// name of the file after the directory, with a `/` between them unless the
/// directory is the empty path or ends in one.
pub open spec fn log_path_of(dir: Seq<char>, gen: u64) -> Seq<char> {
    if dir.len() == 0 || dir.last() == '/' {
        dir + log_name(gen)
    } else {
        dir + seq!['/'] + log_name(gen)
    }
}

/// The generations rise strictly.
pub open spec fn strictly_ascending(gens: Seq<u64>) -> bool {
    forall|i: int, j: int| 0 <= i < j < gens.len() ==> gens[i] < gens[j]
}

/// Some name of the list is that of the log of generation `gen`.
pub open spec fn names_gen(names: Seq<String>, gen: u64) -> bool {
    exists|i: int| 0 <= i < names.len() && file_gen(#[trigger] names[i]@) == Some(gen)
}

/// The decimal form of a number is digits that say the number.
pub proof fn lemma_digits(n: nat)
    ensures
        digits(n).len() > 0,
        all_digits(digits(n)),
        value_of(digits(n)) == n,
        digits(n)[0] != '+',
    decreases n,
{
    if n < 10 {
        let text = digits(n);
        assert(text.drop_last().len() == 0);
        assert(value_of(text.drop_last()) == 0);
    } else {
        lemma_digits(n / 10);
        let text = digits(n);
        assert(text.drop_last() =~= digits(n / 10));
        assert(text[0] == digits(n / 10)[0]);
    }
}

/// A longer string of digits says no smaller number.
proof fn lemma_value_grows(text: Seq<char>, k: int)
    requires
        all_digits(text),
        0 <= k <= text.len(),
    ensures
        value_of(text.take(k)) <= value_of(text),
    decreases text.len() - k,
{
    if k == text.len() {
        assert(text.take(k) =~= text);
    } else {
        let longer = text.take(k + 1);
        assert(longer.drop_last() =~= text.take(k));
        assert(longer.last() == text[k]);
        lemma_value_grows(text, k + 1);
    }
}

fn digit_text(digit: u64) -> (text: &'static str)
    requires
        digit < 10,
    ensures
        text@ == seq![digit_char(digit as int)],
{
    proof {
        reveal_strlit("0");
        reveal_strlit("1");
        reveal_strlit("2");
        reveal_strlit("3");
        reveal_strlit("4");
        reveal_strlit("5");
        reveal_strlit("6");
        reveal_strlit("7");
        reveal_strlit("8");
        reveal_strlit("9");
    }
    let text = if digit == 0 {
        "0"
    } else if digit == 1 {
        "1"
    } else if digit == 2 {
        "2"
    } else if digit == 3 {
        "3"
    } else if digit == 4 {
        "4"
    } else if digit == 5 {
        "5"
    } else if digit == 6 {
        "6"
    } else if digit == 7 {
        "7"
    } else if digit == 8 {
        "8"
    } else {
        "9"
    };
    assert(text@ =~= seq![digit_char(digit as int)]);
    text
}

fn push_digits(out: &mut String, n: u64)
    ensures
        final(out)@ == old(out)@ + digits(n as nat),
    decreases n,
{
    if n >= 10 {
        push_digits(out, n / 10);
    }
    out.append(digit_text(n % 10));
    assert(out@ =~= old(out)@ + digits(n as nat));
}

/// The name of the log file of generation `gen`.
pub fn log_file_name(gen: u64) -> (name: String)
    ensures
        name@ == log_name(gen),
{
    let mut name = String::new();
    push_digits(&mut name, gen);
    proof {
        reveal_strlit(".log");
    }
    name.append(".log");
    assert(name@ =~= log_name(gen));
    name
}

/// The path of the log file of generation `gen` in the directory `dir`.
pub fn log_path(dir: &str, gen: u64) -> (path: String)
    ensures
        path@ == log_path_of(dir@, gen),
{
    let mut path = String::from_str(dir);
    let n = dir.unicode_len();
    if n > 0 && dir.get_char(n - 1) != '/' {
        proof {
            reveal_strlit("/");
        }
        path.append("/");
    }
    let name = log_file_name(gen);
    path.append(name.as_str());
    assert(path@ =~= log_path_of(dir@, gen));
    path
}

fn digit_of(c: char) -> (digit: Option<u64>)
    ensures
        match digit {
            Some(d) => d == digit_value(c) && d < 10,
            None => digit_value(c) < 0,
        },
{
    if c == '0' {
        Some(0)
    } else if c == '1' {
        Some(1)
    } else if c == '2' {
        Some(2)
    } else if c == '3' {
        Some(3)
    } else if c == '4' {
        Some(4)
    } else if c == '5' {
        Some(5)
    } else if c == '6' {
        Some(6)
    } else if c == '7' {
        Some(7)
    } else if c == '8' {
        Some(8)
    } else if c == '9' {
        Some(9)
    } else {
        None
    }
}

/// Reads a generation number.
pub fn parse_generation(text: &str) -> (gen: Option<u64>)
    ensures
        gen == parse_gen(text@),
{
    let n = text.unicode_len();
    if n == 0 {
        return None;
    }
    let start: usize = if text.get_char(0) == '+' {
        1
    } else {
        0
    };
    if start == n {
        return None;
    }
    let ghost body = text@.skip(start as int);
    assert(text@.skip(0) =~= text@);
    assert(body == (if text@[0] == '+' {
        text@.skip(1)
    } else {
        text@
    }));
    let mut value: u64 = 0;
    let mut i: usize = start;
    while i < n
        invariant
            start <= i <= n,
            n == text@.len(),
            body == text@.skip(start as int),
            body == (if text@[0] == '+' {
                text@.skip(1)
            } else {
                text@
            }),
            all_digits(body.take(i - start)),
            value == value_of(body.take(i - start)),
        decreases n - i,
    {
        let ghost seen = body.take(i - start);
        let ghost more = body.take(i + 1 - start);
        assert(more.drop_last() =~= seen);
        assert(more.last() == text@[i as int]);
        let digit = match digit_of(text.get_char(i)) {
            Some(digit) => digit,
            None => {
                assert(digit_value(body[i - start]) < 0);
                return None;
            },
        };
        assert(all_digits(more)) by {
            assert forall|j: int| 0 <= j < more.len() implies digit_value(#[trigger] more[j])
                >= 0 by {
                if j < seen.len() {
                    assert(more[j] == seen[j]);
                }
            }
        }
        let next = match value.checked_mul(10) {
            Some(tens) => tens.checked_add(digit),
            None => None,
        };
        match next {
            Some(next) => {
                value = next;
            },
            None => {
                proof {
                    assert(value_of(more) > u64::MAX);
                    if all_digits(body) {
                        lemma_value_grows(body, i + 1 - start);
                    }
                }
                return None;
            },
        }
        i += 1;
    }
    assert(body.take(n - start) =~= body);
    Some(value)
}

/// The generation of the log whose file has this name, if the name is that
/// of a log.
pub fn generation_of(name: &str) -> (gen: Option<u64>)
    ensures
        gen == file_gen(name@),
{
    let n = name.unicode_len();
    if n < 4 {
        return None;
    }
    let stem_len = n - 4;
    if name.get_char(stem_len) != '.' || name.get_char(stem_len + 1) != 'l' || name.get_char(
        stem_len + 2,
    ) != 'o' || name.get_char(stem_len + 3) != 'g' {
        assert(name@.skip(n - 4) != log_suffix()) by {
            let tail = name@.skip(n - 4);
            if tail == log_suffix() {
                assert(tail[0] == '.' && tail[1] == 'l' && tail[2] == 'o' && tail[3] == 'g');
            }
        }
        return None;
    }
    assert(name@.skip(n - 4) =~= log_suffix());
    let stem = name.substring_char(0, stem_len);
    assert(stem@ =~= name@.take(n - 4));
    parse_generation(stem)
}

/// Puts `gen` at its place in a list of rising generations, unless the list
/// has it.
fn insert_gen(gens: &mut Vec<u64>, gen: u64)
    requires
        strictly_ascending(old(gens)@),
    ensures
        strictly_ascending(final(gens)@),
        final(gens)@.contains(gen),
        forall|other: u64| #[trigger]
            old(gens)@.contains(other) ==> final(gens)@.contains(other),
        forall|other: u64| #[trigger]
            final(gens)@.contains(other) ==> old(gens)@.contains(other) || other == gen,
{
    let mut at: usize = 0;
    while at < gens.len() && gens[at] < gen
        invariant
            at <= gens@.len(),
            gens@ == old(gens)@,
            forall|j: int| 0 <= j < at ==> gens@[j] < gen,
        decreases gens@.len() - at,
    {
        at += 1;
    }
    if at < gens.len() && gens[at] == gen {
        assert(gens@.contains(gen));
        return ;
    }
    gens.insert(at, gen);
    let ghost before = old(gens)@;
    assert forall|i: int, j: int| 0 <= i < j < gens@.len() implies gens@[i] < gens@[j] by {
        if j < at {
            assert(gens@[i] == before[i] && gens@[j] == before[j]);
        } else if j == at {
            assert(gens@[i] == before[i]);
        } else if i < at {
            assert(gens@[i] == before[i] && gens@[j] == before[j - 1]);
            assert(before[j - 1] >= before[at as int]) by {
                if j - 1 > at {
                    assert(before[at as int] < before[j - 1]);
                }
            }
        } else if i == at {
            assert(gens@[j] == before[j - 1]);
            if j - 1 > at {
                assert(before[at as int] < before[j - 1]);
            }
        } else {
            assert(gens@[i] == before[i - 1] && gens@[j] == before[j - 1]);
        }
    }
    assert(gens@[at as int] == gen);
    assert forall|other: u64| #[trigger] before.contains(other) implies gens@.contains(other) by {
        let k = choose|k: int| 0 <= k < before.len() && before[k] == other;
        if k < at {
            assert(gens@[k] == other);
        } else {
            assert(gens@[k + 1] == other);
        }
    }
    assert forall|other: u64| #[trigger] gens@.contains(other) implies before.contains(other)
        || other == gen by {
        let k = choose|k: int| 0 <= k < gens@.len() && gens@[k] == other;
        if k < at {
            assert(before[k] == other);
        } else if k > at {
            assert(before[k - 1] == other);
        }
    }
}

/// The generations below `below` among `gens`, in their order: those of the
/// logs that a compaction into the log of generation `below` leaves behind.
pub open spec fn stale_of(gens: Seq<u64>, below: u64) -> Seq<u64> {
    gens.filter(|gen: u64| gen < below)
}

/// The generations of the logs to delete after a compaction into the log of
/// generation `below`: every one that is older. A program that applies this
/// to the logs it finds in the directory tries again those that an earlier
/// compaction could not delete.
pub fn stale_gens(gens: &Vec<u64>, below: u64) -> (stale: Vec<u64>)
    ensures
        stale@ == stale_of(gens@, below),
{
    let mut stale: Vec<u64> = Vec::new();
    let mut i: usize = 0;
    proof {
        reveal(Seq::filter);
        assert(gens@.take(0).len() == 0);
    }
    while i < gens.len()
        invariant
            i <= gens@.len(),
            stale@ == stale_of(gens@.take(i as int), below),
        decreases gens@.len() - i,
    {
        let gen = gens[i];
        proof {
            reveal(Seq::filter);
            let next = gens@.take(i + 1);
            assert(next.drop_last() =~= gens@.take(i as int));
            assert(next.last() == gen);
        }
        if gen < below {
            stale.push(gen);
        }
        i += 1;
    }
    assert(gens@.take(i as int) =~= gens@);
    stale
}

/// The generations of the logs among the files of these names, each once,
/// in rising order.
pub fn sorted_gen_list(names: &Vec<String>) -> (gens: Vec<u64>)
    ensures
        strictly_ascending(gens@),
        forall|gen: u64| gens@.contains(gen) <==> names_gen(names@, gen),
{
    let mut gens: Vec<u64> = Vec::new();
    let mut i: usize = 0;
    while i < names.len()
        invariant
            i <= names@.len(),
            strictly_ascending(gens@),
            forall|gen: u64| gens@.contains(gen) <==> names_gen(names@.take(i as int), gen),
        decreases names@.len() - i,
    {
        let ghost seen = names@.take(i as int);
        let ghost more = names@.take(i + 1);
        let ghost had = gens@;
        let found = generation_of(names[i].as_str());
        if let Some(gen) = found {
            insert_gen(&mut gens, gen);
        }
        assert forall|gen: u64| gens@.contains(gen) <==> names_gen(more, gen) by {
            if names_gen(more, gen) {
                let k = choose|k: int| 0 <= k < more.len() && file_gen(#[trigger] more[k]@)
                    == Some(gen);
                if k < i {
                    assert(seen[k] == more[k]);
                    assert(names_gen(seen, gen));
                }
            }
            if had.contains(gen) {
                let k = choose|k: int| 0 <= k < seen.len() && file_gen(#[trigger] seen[k]@)
                    == Some(gen);
                assert(more[k] == seen[k]);
            }
            if found == Some(gen) {
                assert(more[i as int] == names@[i as int]);
            }
        }
        i += 1;
    }
    assert(names@.take(i as int) =~= names@);
    gens
}

} // verus!
