//! Scan configuration and its validation.
//!
//! A scan runs against one IP address with a worker pool of a size chosen by
//! the operator, at most 1024.  The surrounding command line collaborator
//! reads the process arguments and parses address literals; every decision —
//! which form the arguments take, whether the worker count is a number in
//! range, which configuration error to report — is made here, on plain
//! values.

use vstd::prelude::*;

verus! {

/// An IP address, held as plain bits: 32 for IPv4, 128 for IPv6.  The
/// surrounding code converts between this and its own address type; the scan
/// logic only carries the address through to the probes.
#[derive(Clone, Copy, PartialEq, Eq, Structural, Debug)]
pub enum IpAddress {
    V4(u32),
    V6(u128),
}

/// Why a command line was rejected.
#[derive(Clone, Copy, PartialEq, Eq, Structural, Debug)]
pub enum ConfigError {
    /// Fewer than two arguments: not even an address was given.
    NotEnoughArguments,
    /// More than four arguments.
    TooManyArguments,
    /// The address argument is not an IPv4 or IPv6 literal.
    InvalidIpAddress,
    /// The worker-count argument is no numeral that fits a `u16`, or is zero.
    InvalidThreadsNo,
    /// The worker count exceeds the supported maximum of 1024.
    ThreadsNoTooBig,
    /// The arguments fit none of the recognized forms.
    InvalidSyntax,
}

/// A validated scan configuration: the target address and the worker pool
/// size, in `[1, 1024]`.
#[derive(Clone, Copy, Debug)]
pub struct IpSnifferArguments {
    pub threads_no: u16,
    pub ip_addr: IpAddress,
}

impl IpSnifferArguments {
    /// The configuration's invariant: the worker pool is non-empty and within
    /// the supported maximum.
    pub open spec fn valid(self) -> bool {
        1 <= self.threads_no <= 1024
    }

    /// Validate an explicit worker count against the supported range.
    pub fn new(ip_addr: IpAddress, threads_no: u16) -> (r: Result<IpSnifferArguments, ConfigError>)
        ensures
            match r {
                Ok(c) => 1 <= threads_no <= 1024 && c.threads_no == threads_no && c.ip_addr
                    == ip_addr && c.valid(),
                Err(e) => (threads_no == 0 && e == ConfigError::InvalidThreadsNo) || (threads_no
                    > 1024 && e == ConfigError::ThreadsNoTooBig),
            },
    {
        if threads_no == 0 {
            Err(ConfigError::InvalidThreadsNo)
        } else if threads_no > crate::MAX_SUPPORTED_THREADS_NO {
            Err(ConfigError::ThreadsNoTooBig)
        } else {
            Ok(IpSnifferArguments { threads_no, ip_addr })
        }
    }

    /// The configuration used when only an address is given: the full default
    /// pool of 1024 workers.
    pub fn with_default_threads(ip_addr: IpAddress) -> (r: IpSnifferArguments)
        ensures
            r.threads_no == 1024,
            r.ip_addr == ip_addr,
            r.valid(),
    {
        IpSnifferArguments { threads_no: crate::DEFAULT_THREADS_NO, ip_addr }
    }

    /// Build the configuration for the worker-count form of the command line:
    /// the address argument as parsed by the collaborator (`None` when it was
    /// no valid literal), and the raw worker-count argument.  The address is
    /// judged first, as the operator wrote it last.
    pub fn from_threads_option(ip_addr: Option<IpAddress>, threads_arg: &[u8]) -> (r: Result<
        IpSnifferArguments,
        ConfigError,
    >)
        ensures
            match r {
                Ok(c) => {
                    &&& ip_addr is Some
                    &&& is_u16_literal(threads_arg@)
                    &&& 1 <= decimal_value(threads_arg@) <= 1024
                    &&& c.ip_addr == ip_addr->0
                    &&& c.threads_no == decimal_value(threads_arg@)
                    &&& c.valid()
                },
                Err(e) => match e {
                    ConfigError::InvalidIpAddress => ip_addr is None,
                    ConfigError::InvalidThreadsNo => ip_addr is Some && (!is_u16_literal(
                        threads_arg@,
                    ) || decimal_value(threads_arg@) == 0),
                    ConfigError::ThreadsNoTooBig => ip_addr is Some && is_u16_literal(threads_arg@)
                        && decimal_value(threads_arg@) > 1024,
                    _ => false,
                },
            },
    {
        let addr = match ip_addr {
            Some(a) => a,
            None => {
                return Err(ConfigError::InvalidIpAddress);
            },
        };
        let threads_no = match parse_u16(threads_arg) {
            Some(n) => n,
            None => {
                return Err(ConfigError::InvalidThreadsNo);
            },
        };
        IpSnifferArguments::new(addr, threads_no)
    }
}

/// How a command line is to be handled, decided in the order the checks are
/// made: the argument count first, then whether the first argument is an
/// address literal, then the help flags (only without further arguments),
/// then the worker-count flags.
#[derive(Clone, Copy, PartialEq, Eq, Structural, Debug)]
pub enum ArgsForm {
    /// Fewer than two arguments.
    NotEnoughArguments,
    /// More than four arguments.
    TooManyArguments,
    /// The first argument is an address: scan it with the default pool.
    AddressOnly,
    /// The lone argument carries a help flag: print the manual.
    HelpRequested,
    /// The first argument carries a worker-count flag: the count and the
    /// address follow it.
    ThreadsOption,
    /// None of the recognized forms.
    InvalidSyntax,
}

/// `p` occurs as a contiguous run inside `t`.
pub open spec fn contains_slice(t: Seq<u8>, p: Seq<u8>) -> bool {
    exists|k: int| 0 <= k <= t.len() - p.len() && #[trigger] t.subrange(k, k + p.len()) == p
}

/// The bytes of `"-h"`.
pub open spec fn help_short_flag() -> Seq<u8> {
    seq![45u8, 104u8]
}

/// The bytes of `"--help"`.
pub open spec fn help_long_flag() -> Seq<u8> {
    seq![45u8, 45u8, 104u8, 101u8, 108u8, 112u8]
}

/// The bytes of `"-t"`.
pub open spec fn threads_short_flag() -> Seq<u8> {
    seq![45u8, 116u8]
}

/// The bytes of `"--threads"`.
pub open spec fn threads_long_flag() -> Seq<u8> {
    seq![45u8, 45u8, 116u8, 104u8, 114u8, 101u8, 97u8, 100u8, 115u8]
}

/// The decision a command line falls under, as a function of the
/// argument count, the first argument's bytes, and whether that argument is
/// an address literal (judged by the collaborator that parses addresses).
pub open spec fn classification(
    arg_count: int,
    option_arg: Seq<u8>,
    first_is_address: bool,
) -> ArgsForm {
    if arg_count < 2 {
        ArgsForm::NotEnoughArguments
    } else if arg_count > 4 {
        ArgsForm::TooManyArguments
    } else if first_is_address {
        ArgsForm::AddressOnly
    } else if arg_count == 2 && (contains_slice(option_arg, help_short_flag()) || contains_slice(
        option_arg,
        help_long_flag(),
    )) {
        ArgsForm::HelpRequested
    } else if contains_slice(option_arg, threads_short_flag()) || contains_slice(
        option_arg,
        threads_long_flag(),
    ) {
        ArgsForm::ThreadsOption
    } else {
        ArgsForm::InvalidSyntax
    }
}

/// Whether `pattern` stands at offset `start` of `text`.
fn matches_at(text: &[u8], pattern: &[u8], start: usize) -> (r: bool)
    requires
        start + pattern@.len() <= text@.len(),
    ensures
        r == (text@.subrange(start as int, start + pattern@.len()) == pattern@),
{
    proof {
        vstd::slice::axiom_spec_len(text);
    }
    let mut j: usize = 0;
    while j < pattern.len()
        invariant
            text@.len() <= usize::MAX,
            start + pattern@.len() <= text@.len(),
            0 <= j <= pattern@.len(),
            forall|k: int| 0 <= k < j ==> text@[start + k] == pattern@[k],
        decreases pattern@.len() - j,
    {
        if text[start + j] != pattern[j] {
            proof {
                assert(text@.subrange(start as int, start + pattern@.len())[j as int]
                    == text@[start + j]);
            }
            return false;
        }
        j = j + 1;
    }
    proof {
        assert(text@.subrange(start as int, start + pattern@.len()) =~= pattern@);
    }
    true
}

/// Whether `pattern` occurs as a contiguous run inside `text`.
pub fn contains_subslice(text: &[u8], pattern: &[u8]) -> (r: bool)
    ensures
        r == contains_slice(text@, pattern@),
{
    proof {
        vstd::slice::axiom_spec_len(text);
    }
    if pattern.len() == 0 {
        proof {
            assert(text@.subrange(0, 0 + pattern@.len() as int) =~= pattern@);
        }
        return true;
    }
    if pattern.len() > text.len() {
        return false;
    }
    let bound: usize = text.len() - pattern.len();
    let mut start: usize = 0;
    while start <= bound
        invariant
            text@.len() <= usize::MAX,
            pattern@.len() >= 1,
            bound == text@.len() - pattern@.len(),
            pattern@.len() <= text@.len(),
            forall|k: int| 0 <= k < start
                ==> #[trigger] text@.subrange(k, k + pattern@.len()) != pattern@,
        decreases bound + 1 - start,
    {
        if matches_at(text, pattern, start) {
            return true;
        }
        start = start + 1;
    }
    false
}

/// Classify a command line.  `arg_count` is the full argument count (program
/// name included), `option_arg` the first argument's bytes, and
/// `first_is_address` whether that argument parsed as an address literal.
pub fn classify_arguments(arg_count: usize, option_arg: &[u8], first_is_address: bool) -> (r:
    ArgsForm)
    ensures
        r == classification(arg_count as int, option_arg@, first_is_address),
{
    if arg_count < 2 {
        return ArgsForm::NotEnoughArguments;
    }
    if arg_count > 4 {
        return ArgsForm::TooManyArguments;
    }
    if first_is_address {
        return ArgsForm::AddressOnly;
    }
    let mut help_short: Vec<u8> = Vec::new();
    help_short.push(45);
    help_short.push(104);
    let mut help_long: Vec<u8> = Vec::new();
    help_long.push(45);
    help_long.push(45);
    help_long.push(104);
    help_long.push(101);
    help_long.push(108);
    help_long.push(112);
    proof {
        assert(help_short@ =~= help_short_flag());
        assert(help_long@ =~= help_long_flag());
    }
    if arg_count == 2 && (contains_subslice(option_arg, help_short.as_slice())
        || contains_subslice(option_arg, help_long.as_slice())) {
        return ArgsForm::HelpRequested;
    }
    let mut threads_short: Vec<u8> = Vec::new();
    threads_short.push(45);
    threads_short.push(116);
    let mut threads_long: Vec<u8> = Vec::new();
    threads_long.push(45);
    threads_long.push(45);
    threads_long.push(116);
    threads_long.push(104);
    threads_long.push(114);
    threads_long.push(101);
    threads_long.push(97);
    threads_long.push(100);
    threads_long.push(115);
    proof {
        assert(threads_short@ =~= threads_short_flag());
        assert(threads_long@ =~= threads_long_flag());
    }
    if contains_subslice(option_arg, threads_short.as_slice()) || contains_subslice(
        option_arg,
        threads_long.as_slice(),
    ) {
        return ArgsForm::ThreadsOption;
    }
    ArgsForm::InvalidSyntax
}

/// `b` is an ASCII decimal digit.
pub open spec fn is_decimal_digit(b: u8) -> bool {
    48 <= b <= 57
}

/// Every byte of `s` is an ASCII decimal digit.
pub open spec fn all_decimal_digits(s: Seq<u8>) -> bool {
    forall|k: int| 0 <= k < s.len() ==> is_decimal_digit(#[trigger] s[k])
}

/// The number the digit string `s` denotes, most significant digit first.
pub open spec fn decimal_value(s: Seq<u8>) -> int
    decreases s.len(),
{
    if s.len() == 0 {
        0
    } else {
        decimal_value(s.drop_last()) * 10 + (s.last() - 48)
    }
}

/// `s` is a decimal numeral that fits in a `u16`.
pub open spec fn is_u16_literal(s: Seq<u8>) -> bool {
    &&& s.len() > 0
    &&& all_decimal_digits(s)
    &&& decimal_value(s) <= 65535
}

proof fn lemma_decimal_value_nonneg(s: Seq<u8>)
    requires
        all_decimal_digits(s),
    ensures
        decimal_value(s) >= 0,
    decreases s.len(),
{
    if s.len() > 0 {
        assert forall|k: int| 0 <= k < s.drop_last().len()
            implies is_decimal_digit(#[trigger] s.drop_last()[k]) by {
            assert(s.drop_last()[k] == s[k]);
        }
        lemma_decimal_value_nonneg(s.drop_last());
        assert(is_decimal_digit(s[s.len() - 1]));
    }
}

/// Appending further digits never shrinks the denoted number.
proof fn lemma_decimal_value_prefix_le(s: Seq<u8>, m: int)
    requires
        all_decimal_digits(s),
        0 <= m <= s.len(),
    ensures
        decimal_value(s.take(m)) <= decimal_value(s),
    decreases s.len(),
{
    if m == s.len() {
        assert(s.take(m) =~= s);
    } else {
        assert forall|k: int| 0 <= k < s.drop_last().len()
            implies is_decimal_digit(#[trigger] s.drop_last()[k]) by {
            assert(s.drop_last()[k] == s[k]);
        }
        assert(s.drop_last().take(m) =~= s.take(m));
        lemma_decimal_value_prefix_le(s.drop_last(), m);
        lemma_decimal_value_nonneg(s.drop_last());
        assert(is_decimal_digit(s[s.len() - 1]));
    }
}

/// Parse an ASCII decimal numeral into a `u16`.  Returns `None` exactly when
/// `s` is empty, holds a non-digit, or denotes a number above 65535.
pub fn parse_u16(s: &[u8]) -> (r: Option<u16>)
    ensures
        match r {
            Some(n) => is_u16_literal(s@) && n == decimal_value(s@),
            None => !is_u16_literal(s@),
        },
{
    if s.len() == 0 {
        return None;
    }
    let mut acc: u32 = 0;
    let mut k: usize = 0;
    proof {
        assert(s@.take(0) =~= Seq::<u8>::empty());
    }
    while k < s.len()
        invariant
            0 <= k <= s@.len(),
            acc <= 65535,
            all_decimal_digits(s@.take(k as int)),
            acc == decimal_value(s@.take(k as int)),
        decreases s@.len() - k,
    {
        let b = s[k];
        if b < 48 || b > 57 {
            proof {
                assert(!is_decimal_digit(s@[k as int]));
            }
            return None;
        }
        let v: u32 = acc * 10 + (b - 48) as u32;
        proof {
            assert(s@.take(k + 1).drop_last() =~= s@.take(k as int));
            assert(s@.take(k + 1).last() == s@[k as int]);
            assert(v == decimal_value(s@.take(k + 1)));
            assert forall|j: int| 0 <= j < k + 1
                implies is_decimal_digit(#[trigger] s@.take(k + 1)[j]) by {
                assert(s@.take(k + 1)[j] == s@[j]);
                if j < k {
                    assert(s@.take(k as int)[j] == s@[j]);
                }
            }
        }
        if v > 65535 {
            proof {
                if all_decimal_digits(s@) {
                    lemma_decimal_value_prefix_le(s@, k + 1);
                }
            }
            return None;
        }
        acc = v;
        k = k + 1;
    }
    proof {
        assert(s@.take(s@.len() as int) =~= s@);
    }
    Some(acc as u16)
}

} // verus!
