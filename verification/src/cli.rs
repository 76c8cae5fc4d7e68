//! Splitting the arguments given after `--` on the command line.
use vstd::prelude::*;
use vstd::string::StrSliceExecFns;

verus! {

/// The argument is an option: it starts with `-`.
pub open spec fn is_option(arg: Seq<char>) -> bool {
    arg.len() > 0 && arg[0] == '-'
}

/// The position of the first option among `args`, or the number of
/// arguments when there is none.
pub open spec fn first_option(args: Seq<String>) -> int {
    if exists|i: int| 0 <= i < args.len() && is_option(#[trigger] args[i]@) {
        choose|i: int|
            0 <= i < args.len() && is_option(#[trigger] args[i]@) && forall|k: int|
                0 <= k < i ==> !is_option(#[trigger] args[k]@)
    } else {
        args.len() as int
    }
}

/// Whether `arg` starts with `-`.
pub fn starts_with_dash(arg: &str) -> (b: bool)
    ensures
        b == is_option(arg@),
{
    arg.unicode_len() > 0 && arg.get_char(0) == '-'
}

/// The position of the first option, or the number of arguments.
fn first_option_index(args: &Vec<String>) -> (r: usize)
    ensures
        r == first_option(args@),
        r <= args@.len(),
{
    let mut i: usize = 0;
    while i < args.len()
        invariant
            i <= args@.len(),
            forall|k: int| 0 <= k < i ==> !is_option(#[trigger] args@[k]@),
        decreases args@.len() - i,
    {
        if starts_with_dash(args[i].as_str()) {
            proof {
                let s = args@;
                assert(is_option(s[i as int]@));
                let c = choose|c: int|
                    0 <= c < s.len() && is_option(#[trigger] s[c]@) && forall|k: int|
                        0 <= k < c ==> !is_option(#[trigger] s[k]@);
                if c < i {
                    assert(!is_option(s[c]@));
                } else if c > i {
                    assert(!is_option(s[i as int]@));
                }
            }
            return i;
        }
        i += 1;
    }
    i
}

/// Splits the trailing arguments into the workloads, up to the first
/// option, and the emulator arguments, from it on.
pub fn split_extra_args(extra_args: Vec<String>) -> (r: (Vec<String>, Vec<String>))
    ensures
        r.0@ == extra_args@.take(first_option(extra_args@)),
        r.1@ == extra_args@.skip(first_option(extra_args@)),
{
    let split_index = first_option_index(&extra_args);
    let mut workloads = extra_args;
    let emu_args = workloads.split_off(split_index);
    (workloads, emu_args)
}

/// Why a positive count given on the command line was refused.
#[derive(Clone, Copy, Debug, PartialEq, Eq, Structural)]
pub enum PositiveIntError {
    /// Not a decimal number in range.
    Invalid,
    /// The number is zero.
    Zero,
}

/// The value of a string of decimal digits, `None` if a character is not a
/// digit or the value exceeds `max`.
pub open spec fn digits_upto(s: Seq<char>, max: int) -> Option<int>
    decreases s.len(),
{
    if s.len() == 0 {
        Some(0)
    } else {
        match digits_upto(s.drop_last(), max) {
            None => None,
            Some(v) => if '0' <= s.last() <= '9' && v * 10 + (s.last() as int - '0' as int) <= max {
                Some(v * 10 + (s.last() as int - '0' as int))
            } else {
                None
            },
        }
    }
}

/// What `str::parse` accepts for an unsigned integer of maximum `max`:
/// decimal digits, optionally after a `+`, of a value that fits.
pub open spec fn parse_unsigned_spec(s: Seq<char>, max: int) -> Option<int> {
    let digits = if s.len() > 0 && s[0] == '+' {
        s.skip(1)
    } else {
        s
    };
    if digits.len() == 0 {
        None
    } else {
        digits_upto(digits, max)
    }
}

proof fn lemma_digits_upto_none_extends(s: Seq<char>, n: nat, max: int)
    requires
        n <= s.len(),
        digits_upto(s.take(n as int), max) is None,
    ensures
        digits_upto(s, max) is None,
    decreases s.len() - n,
{
    if n < s.len() {
        assert(s.take((n + 1) as int).drop_last() =~= s.take(n as int));
        lemma_digits_upto_none_extends(s, n + 1, max);
    } else {
        assert(s.take(n as int) =~= s);
    }
}

/// Parses an unsigned decimal integer of at most `max`, as `str::parse`
/// does for an integer type whose largest value is `max`.
pub fn parse_unsigned(s: &str, max: u64) -> (r: Option<u64>)
    ensures
        match parse_unsigned_spec(s@, max as int) {
            None => r is None,
            Some(v) => 0 <= v <= max && r == Some(v as u64),
        },
{
    let n = s.unicode_len();
    let start: usize = if n > 0 && s.get_char(0) == '+' {
        1
    } else {
        0
    };
    let ghost digits = s@.skip(start as int);
    proof {
        assert(s@.skip(0) =~= s@);
    }
    if start == n {
        return None;
    }
    let mut value: u64 = 0;
    let mut i = start;
    while i < n
        invariant
            start <= i <= n,
            start < n,
            n == s@.len(),
            digits == s@.skip(start as int),
            digits == (if s@.len() > 0 && s@[0] == '+' {
                s@.skip(1)
            } else {
                s@
            }),
            digits_upto(digits.take(i - start), max as int) == Some(value as int),
            value <= max,
        decreases n - i,
    {
        let c = s.get_char(i);
        proof {
            assert(digits.take(i + 1 - start).drop_last() =~= digits.take(i - start));
            assert(digits.take(i + 1 - start).last() == c);
        }
        if !('0' <= c && c <= '9') {
            proof {
                lemma_digits_upto_none_extends(digits, (i + 1 - start) as nat, max as int);
            }
            return None;
        }
        let d = (c as u64) - ('0' as u64);
        if d > max || value > (max - d) / 10 {
            proof {
                if d <= max {
                    assert(value * 10 + d > max) by (nonlinear_arith)
                        requires
                            value > (max - d) / 10,
                            d <= max,
                    ;
                } else {
                    assert(value * 10 + d > max) by (nonlinear_arith)
                        requires
                            d > max,
                            value >= 0,
                    ;
                }
                lemma_digits_upto_none_extends(digits, (i + 1 - start) as nat, max as int);
            }
            return None;
        }
        assert(value * 10 + d <= max) by (nonlinear_arith)
            requires
                value <= (max - d) / 10,
                d <= max,
        ;
        value = value * 10 + d;
        i += 1;
    }
    assert(digits.take(n - start) =~= digits);
    Some(value)
}

/// A count given on the command line: a decimal `u64` above zero.
pub fn parse_positive_u64(s: &str) -> (r: Result<u64, PositiveIntError>)
    ensures
        match parse_unsigned_spec(s@, u64::MAX as int) {
            None => r == Err::<u64, PositiveIntError>(PositiveIntError::Invalid),
            Some(v) => if v == 0 {
                r == Err::<u64, PositiveIntError>(PositiveIntError::Zero)
            } else {
                r == Ok::<u64, PositiveIntError>(v as u64)
            },
        },
{
    match parse_unsigned(s, u64::MAX) {
        None => Err(PositiveIntError::Invalid),
        Some(0) => Err(PositiveIntError::Zero),
        Some(v) => Ok(v),
    }
}

/// A count given on the command line: a decimal `usize` above zero.
pub fn parse_positive_usize(s: &str) -> (r: Result<usize, PositiveIntError>)
    ensures
        match parse_unsigned_spec(s@, usize::MAX as int) {
            None => r == Err::<usize, PositiveIntError>(PositiveIntError::Invalid),
            Some(v) => if v == 0 {
                r == Err::<usize, PositiveIntError>(PositiveIntError::Zero)
            } else {
                r == Ok::<usize, PositiveIntError>(v as usize)
            },
        },
{
    match parse_unsigned(s, usize::MAX as u64) {
        None => Err(PositiveIntError::Invalid),
        Some(0) => Err(PositiveIntError::Zero),
        Some(v) => Ok(v as usize),
    }
}

} // verus!
