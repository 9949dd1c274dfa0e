//! The store's file naming.
//!
//! Both kinds of on-disk file live under one data directory and are
//! named by the sequence number of the structure they back: an SSTable
//! file as `{seq}.sst`, a write-ahead-log file as `{seq}.log`.  The
//! embedding program creates, reads and appends those files; here only
//! their names are computed.

use vstd::prelude::*;
use vstd::string::StringExecFns;

verus! {

/// The character of one decimal digit.
pub open spec fn spec_digit_char(d: nat) -> char {
    if d == 0 {
        '0'
    } else if d == 1 {
        '1'
    } else if d == 2 {
        '2'
    } else if d == 3 {
        '3'
    } else if d == 4 {
        '4'
    } else if d == 5 {
        '5'
    } else if d == 6 {
        '6'
    } else if d == 7 {
        '7'
    } else if d == 8 {
        '8'
    } else {
        '9'
    }
}

/// The decimal digits of a number, most significant first.
pub open spec fn spec_decimal(n: nat) -> Seq<char>
    decreases n,
{
    if n < 10 {
        seq![spec_digit_char(n)]
    } else {
        spec_decimal(n / 10) + seq![spec_digit_char(n % 10)]
    }
}

/// The name of the SSTable file of sequence number `seq`.
pub open spec fn spec_sstfile_path(seq: u64) -> Seq<char> {
    "/tmp/summer_kv_test/"@ + spec_decimal(seq as nat) + ".sst"@
}

/// The name of the write-ahead-log file of sequence number `seq`.
pub open spec fn spec_logfile_path(seq: u64) -> Seq<char> {
    "/tmp/summer_kv_test/"@ + spec_decimal(seq as nat) + ".log"@
}

/// The one-character string of a decimal digit.
fn digit_str(d: u64) -> (r: &'static str)
    requires
        d < 10,
    ensures
        r@ == seq![spec_digit_char(d as nat)],
{
    proof {
        reveal_strlit("0");
        reveal_strlit("1");
        reveal_strlit("2");
        reveal_strlit("3");
        reveal_strlit("4");
        reveal_strlit("5");
        reveal_strlit("6");
        reveal_strlit("7");
        reveal_strlit("8");
        reveal_strlit("9");
    }
    match d {
        0 => "0",
        1 => "1",
        2 => "2",
        3 => "3",
        4 => "4",
        5 => "5",
        6 => "6",
        7 => "7",
        8 => "8",
        _ => "9",
    }
}

/// Appends the decimal digits of `n`, most significant first.
fn append_decimal(s: &mut String, n: u64)
    ensures
        final(s)@ == old(s)@ + spec_decimal(n as nat),
    decreases n,
{
    if n >= 10 {
        append_decimal(s, n / 10);
        s.append(digit_str(n % 10));
        proof {
            assert(s@ =~= old(s)@ + spec_decimal(n as nat));
        }
    } else {
        s.append(digit_str(n));
        proof {
            assert(s@ =~= old(s)@ + spec_decimal(n as nat));
        }
    }
}

/// The path of the SSTable file named by `seq`.
pub fn sstfile_path(seq: u64) -> (r: String)
    ensures
        r@ == spec_sstfile_path(seq),
{
    let mut s = String::from_str("/tmp/summer_kv_test/");
    append_decimal(&mut s, seq);
    s.append(".sst");
    proof {
        assert(s@ =~= spec_sstfile_path(seq));
    }
    s
}

/// The path of the write-ahead-log file named by `seq`.
pub fn logfile_path(seq: u64) -> (r: String)
    ensures
        r@ == spec_logfile_path(seq),
{
    let mut s = String::from_str("/tmp/summer_kv_test/");
    append_decimal(&mut s, seq);
    s.append(".log");
    proof {
        assert(s@ =~= spec_logfile_path(seq));
    }
    s
}

} // verus!
