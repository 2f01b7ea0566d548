//! The rules of a stills run that do not touch the renderer: how the command
//! line is read and what the frames it writes are called.

use crate::text::{decimal, digits_value, is_digit, lemma_decimal_reads_back, push_decimal};
use vstd::prelude::*;

verus! {

#[derive(Clone, Copy, PartialEq, Eq, Debug, Structural)]
pub enum Backend {
    /// The evaluator, which needs no GPU.
    Cpu,
    /// The generated shaders, which is what the screen saver runs.
    Gpu,
}

/// The digits of a numeral: everything after an optional leading `+`.
pub open spec fn numeral_digits(text: Seq<char>) -> Seq<char> {
    if text.len() > 0 && text[0] == '+' {
        text.drop_first()
    } else {
        text
    }
}

/// What `str::parse::<usize>` reads a text as: an optional `+` and at least
/// one ASCII digit, with a value that fits a `usize`. `None` for anything else.
pub open spec fn parsed_count(text: Seq<char>) -> Option<nat> {
    let digits = numeral_digits(text);
    if digits.len() > 0 && (forall|i: int| 0 <= i < digits.len() ==> is_digit(#[trigger] digits[i]))
        && digits_value(digits) <= usize::MAX {
        Some(digits_value(digits))
    } else {
        None
    }
}

proof fn lemma_digits_value_grows(digits: Seq<char>, split: int)
    requires
        0 <= split <= digits.len(),
        forall|i: int| 0 <= i < digits.len() ==> is_digit(#[trigger] digits[i]),
    ensures
        digits_value(digits.subrange(0, split)) <= digits_value(digits),
    decreases digits.len() - split,
{
    if split < digits.len() {
        lemma_digits_value_grows(digits, split + 1);
        assert(digits.subrange(0, split + 1).drop_last() =~= digits.subrange(0, split));
    } else {
        assert(digits.subrange(0, split) =~= digits);
    }
}

/// Read a count from a command line argument, as `str::parse::<usize>` does.
pub fn parse_count(text: &str) -> (value: Option<usize>)
    ensures
        match parsed_count(text@) {
            Some(expected) => value == Some(expected as usize),
            None => value is None,
        },
{
    let length = text.unicode_len();
    let mut start: usize = 0;
    if length > 0 && text.get_char(0) == '+' {
        start = 1;
    }
    let ghost digits = numeral_digits(text@);
    assert(digits =~= text@.subrange(start as int, length as int));
    if start == length {
        return None;
    }
    let mut value: usize = 0;
    let mut position: usize = start;
    while position < length
        invariant
            start <= position <= length,
            length == text@.len(),
            start < length,
            digits == text@.subrange(start as int, length as int),
            digits == numeral_digits(text@),
            forall|i: int| 0 <= i < position - start ==> is_digit(#[trigger] digits[i]),
            value == digits_value(digits.subrange(0, position - start)),
        decreases length - position,
    {
        let c = text.get_char(position);
        let offset = position - start;
        assert(digits[offset as int] == c);
        if c < '0' || c > '9' {
            assert(!is_digit(digits[offset as int]));
            return None;
        }
        let digit = (c as u32 - '0' as u32) as usize;
        assert(digits.subrange(0, offset + 1).drop_last() =~= digits.subrange(0, offset as int));
        assert(digits[offset as int] == c);
        if value > (usize::MAX - digit) / 10 {
            proof {
                assert(forall|i: int| 0 <= i < offset + 1 ==> is_digit(
                    #[trigger] digits.subrange(0, offset + 1)[i],
                ));
                assert(digits_value(digits.subrange(0, offset + 1)) > usize::MAX) by (nonlinear_arith)
                    requires
                        digits_value(digits.subrange(0, offset + 1)) == value * 10 + digit,
                        value > (usize::MAX - digit) / 10,
                        digit <= 9,
                ;
                if forall|i: int| 0 <= i < digits.len() ==> is_digit(#[trigger] digits[i]) {
                    lemma_digits_value_grows(digits, offset + 1);
                    assert(digits_value(digits) > usize::MAX);
                }
            }
            return None;
        }
        value = value * 10 + digit;
        position = position + 1;
    }
    assert(digits.subrange(0, length - start) =~= digits);
    Some(value)
}

/// The message a count argument that is not a number is reported with.
pub open spec fn not_a_number_message(name: Seq<char>, text: Seq<char>) -> Seq<char> {
    name + " must be a number, got "@ + text
}

/// What argument `index` of a command line reads as: `fallback` when it is
/// missing, its value when it is a count, and the report otherwise.
pub open spec fn count_arg(args: Seq<String>, index: int, name: Seq<char>, fallback: nat) -> Result<
    nat,
    Seq<char>,
> {
    if index < args.len() {
        match parsed_count(args[index]@) {
            Some(value) => Ok(value),
            None => Err(not_a_number_message(name, args[index]@)),
        }
    } else {
        Ok(fallback)
    }
}

/// Read argument `index` as a count, keeping `fallback` when it is missing.
pub fn number_arg(args: &[String], index: usize, name: &str, fallback: usize) -> (value: Result<
    usize,
    String,
>)
    ensures
        match count_arg(args@, index as int, name@, fallback as nat) {
            Ok(expected) => value matches Ok(v) && v == expected,
            Err(message) => value matches Err(m) && m@ == message,
        },
        index >= args@.len() ==> (value matches Ok(v) && v == fallback),
        index < args@.len() ==> (value is Ok <==> parsed_count(args@[index as int]@) is Some),
        index < args@.len() && parsed_count(args@[index as int]@) is Some ==> (value matches Ok(v)
            && v == parsed_count(args@[index as int]@).unwrap()),
{
    if index < args.len() {
        let text = args[index].as_str();
        match parse_count(text) {
            Some(count) => Ok(count),
            None => {
                let mut message = String::new();
                message.append(name);
                message.append(" must be a number, got ");
                message.append(text);
                assert(message@ =~= not_a_number_message(name@, args@[index as int]@));
                Err(message)
            },
        }
    } else {
        Ok(fallback)
    }
}

/// Read `seed count size` from command line arguments, in that order,
/// keeping the defaults of 1, 4 and 320 for any that are missing. The first
/// argument that is not a number is the one reported.
pub fn number_args(args: &[String]) -> (numbers: Result<(u64, usize, usize), String>)
    ensures
        match (
            count_arg(args@, 1, "seed"@, 1),
            count_arg(args@, 2, "count"@, 4),
            count_arg(args@, 3, "size"@, 320),
        ) {
            (Ok(seed), Ok(count), Ok(size)) => numbers matches Ok(n) && n.0 == seed && n.1 == count
                && n.2 == size,
            (Err(message), _, _) => numbers matches Err(m) && m@ == message,
            (Ok(_), Err(message), _) => numbers matches Err(m) && m@ == message,
            (Ok(_), Ok(_), Err(message)) => numbers matches Err(m) && m@ == message,
        },
{
    let seed = match number_arg(args, 1, "seed", 1) {
        Ok(seed) => seed,
        Err(message) => return Err(message),
    };
    let count = match number_arg(args, 2, "count", 4) {
        Ok(count) => count,
        Err(message) => return Err(message),
    };
    let size = match number_arg(args, 3, "size", 320) {
        Ok(size) => size,
        Err(message) => return Err(message),
    };
    Ok((seed as u64, count, size))
}

/// The output directory argument, `.` when it is missing.
pub fn directory_arg(args: &[String]) -> (directory: String)
    ensures
        directory@ == if args@.len() > 4 {
            args@[4]@
        } else {
            "."@
        },
{
    if args.len() > 4 {
        args[4].clone()
    } else {
        String::from_str(".")
    }
}

/// The start of every file name a run writes.
pub open spec fn prefix_text(backend: Backend) -> Seq<char> {
    match backend {
        Backend::Cpu => "still"@,
        Backend::Gpu => "gpu"@,
    }
}

/// An index written with at least three digits, padded with zeros.
pub open spec fn padded_index(index: nat) -> Seq<char> {
    if index < 10 {
        "00"@ + decimal(index)
    } else if index < 100 {
        "0"@ + decimal(index)
    } else {
        decimal(index)
    }
}

/// The name of frame `index` of a run: `{prefix}-{index:03}.png`.
pub open spec fn frame_name(backend: Backend, index: nat) -> Seq<char> {
    prefix_text(backend) + "-"@ + padded_index(index) + ".png"@
}

pub fn frame_prefix(backend: Backend) -> (prefix: &'static str)
    ensures
        prefix@ == prefix_text(backend),
{
    match backend {
        Backend::Cpu => "still",
        Backend::Gpu => "gpu",
    }
}

/// The file name frame `index` of a run is written under.
pub fn frame_file_name(backend: Backend, index: usize) -> (name: String)
    ensures
        name@ == frame_name(backend, index as nat),
{
    let mut name = String::new();
    name.append(frame_prefix(backend));
    name.append("-");
    if index < 10 {
        name.append("00");
    } else if index < 100 {
        name.append("0");
    }
    push_decimal(&mut name, index);
    name.append(".png");
    assert(name@ =~= frame_name(backend, index as nat));
    name
}


proof fn lemma_leading_zero_keeps_value(digits: Seq<char>)
    ensures
        digits_value("0"@ + digits) == digits_value(digits),
    decreases digits.len(),
{
    reveal_strlit("0");
    let padded = "0"@ + digits;
    if digits.len() == 0 {
        assert(padded.drop_last() =~= Seq::<char>::empty());
        assert(padded.last() == '0');
        assert(digits_value(padded) == digits_value(padded.drop_last()) * 10 + (padded.last() as int
            - '0' as int) as nat);
        assert(digits =~= Seq::<char>::empty());
    } else {
        lemma_leading_zero_keeps_value(digits.drop_last());
        assert(padded.drop_last() =~= "0"@ + digits.drop_last());
        assert(padded.last() == digits.last());
        assert(digits_value(padded) == digits_value(padded.drop_last()) * 10 + (padded.last() as int
            - '0' as int) as nat);
    }
}

/// A count written in decimal reads back as itself.
pub proof fn lemma_written_count_reads_back(count: nat)
    requires
        count <= usize::MAX,
    ensures
        parsed_count(decimal(count)) == Some(count),
{
    lemma_decimal_reads_back(count);
    assert(numeral_digits(decimal(count)) == decimal(count));
}

/// An argument present on the command line is read as the count it parses to,
/// whatever the fallback; the fallback is used only when the argument is
/// missing. In particular an argument written as the decimal of `count` reads
/// as `count`.
pub proof fn lemma_present_argument_is_read(
    args: Seq<String>,
    index: int,
    name: Seq<char>,
    fallback: nat,
    count: nat,
)
    requires
        0 <= index,
    ensures
        index >= args.len() ==> count_arg(args, index, name, fallback) == Ok::<nat, Seq<char>>(
            fallback,
        ),
        index < args.len() && parsed_count(args[index]@) == Some(count) ==> count_arg(
            args,
            index,
            name,
            fallback,
        ) == Ok::<nat, Seq<char>>(count),
        index < args.len() && parsed_count(args[index]@) is None ==> count_arg(
            args,
            index,
            name,
            fallback,
        ) is Err,
        index < args.len() && args[index]@ == decimal(count) && count <= usize::MAX ==> count_arg(
            args,
            index,
            name,
            fallback,
        ) == Ok::<nat, Seq<char>>(count),
{
    if count <= usize::MAX {
        lemma_written_count_reads_back(count);
    }
}

/// Frame `index` is named `{prefix}-{digits}.png`: the digits read back as
/// `index`, and are padded with zeros to three characters and no further.
pub proof fn lemma_frame_name_reads_back(backend: Backend, index: nat)
    ensures
        ({
            let name = frame_name(backend, index);
            let prefix = prefix_text(backend);
            let digits = name.subrange(prefix.len() + 1int, name.len() - 4);
            &&& name.len() >= prefix.len() + 8
            &&& name.subrange(0, prefix.len() as int) == prefix
            &&& name[prefix.len() as int] == '-'
            &&& name.subrange(name.len() - 4, name.len() as int) == ".png"@
            &&& digits.len() == if decimal(index).len() < 3 {
                3
            } else {
                decimal(index).len()
            }
            &&& forall|i: int| 0 <= i < digits.len() ==> is_digit(#[trigger] digits[i])
            &&& digits_value(digits) == index
        }),
{
    reveal_strlit("-");
    reveal_strlit(".png");
    reveal_strlit("0");
    reveal_strlit("00");
    lemma_decimal_reads_back(index);
    let numeral = decimal(index);
    let padded = padded_index(index);
    if index < 10 {
        assert("00"@ + numeral =~= "0"@ + ("0"@ + numeral));
        lemma_leading_zero_keeps_value(numeral);
        lemma_leading_zero_keeps_value("0"@ + numeral);
    } else if index < 100 {
        lemma_leading_zero_keeps_value(numeral);
        assert(numeral.len() == 2) by {
            lemma_decimal_reads_back(index / 10);
            lemma_decimal_reads_back(index % 10);
            assert(numeral == decimal(index / 10) + decimal(index % 10));
        }
    } else {
        assert(numeral.len() >= 3) by {
            lemma_decimal_reads_back(index % 10);
            lemma_decimal_reads_back((index / 10) % 10);
            lemma_decimal_reads_back(index / 100);
            assert(index / 10 / 10 == index / 100);
            assert(numeral == decimal(index / 10) + decimal(index % 10));
            assert(decimal(index / 10) == decimal(index / 100) + decimal((index / 10) % 10));
        }
    }
    assert forall|i: int| 0 <= i < padded.len() implies is_digit(#[trigger] padded[i]) by {
        if index < 10 {
            if i >= 2 {
                assert(padded[i] == numeral[i - 2]);
            }
        } else if index < 100 {
            if i >= 1 {
                assert(padded[i] == numeral[i - 1]);
            }
        }
    }
    let prefix = prefix_text(backend);
    let name = frame_name(backend, index);
    assert(name == prefix + "-"@ + padded + ".png"@);
    assert(name.subrange(prefix.len() + 1int, name.len() - 4) =~= padded);
    assert(name.subrange(0, prefix.len() as int) =~= prefix);
    assert(name.subrange(name.len() - 4, name.len() as int) =~= ".png"@);
}

} // verus!
