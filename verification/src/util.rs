//! Human-readable size and percentage renderings for the run reports, in
//! plain integer arithmetic: two decimal places, rounded to the nearest.

use vstd::prelude::*;

use crate::radix::{dec_chars, hex_char};

verus! {

/// Appends the decimal rendering of `n`.
pub fn push_dec_u128(s: &mut String, n: u128)
    ensures
        final(s)@ == old(s)@ + dec_chars(n as nat),
    decreases n,
{
    if n < 10 {
        match n as u8 {
            0 => s.append("0"),
            1 => s.append("1"),
            2 => s.append("2"),
            3 => s.append("3"),
            4 => s.append("4"),
            5 => s.append("5"),
            6 => s.append("6"),
            7 => s.append("7"),
            8 => s.append("8"),
            _ => s.append("9"),
        }
        proof {
            reveal_strlit("0");
            reveal_strlit("1");
            reveal_strlit("2");
            reveal_strlit("3");
            reveal_strlit("4");
            reveal_strlit("5");
            reveal_strlit("6");
            reveal_strlit("7");
            reveal_strlit("8");
            reveal_strlit("9");
            assert(s@ =~= old(s)@ + dec_chars(n as nat));
        }
    } else {
        push_dec_u128(s, n / 10);
        match (n % 10) as u8 {
            0 => s.append("0"),
            1 => s.append("1"),
            2 => s.append("2"),
            3 => s.append("3"),
            4 => s.append("4"),
            5 => s.append("5"),
            6 => s.append("6"),
            7 => s.append("7"),
            8 => s.append("8"),
            _ => s.append("9"),
        }
        proof {
            reveal_strlit("0");
            reveal_strlit("1");
            reveal_strlit("2");
            reveal_strlit("3");
            reveal_strlit("4");
            reveal_strlit("5");
            reveal_strlit("6");
            reveal_strlit("7");
            reveal_strlit("8");
            reveal_strlit("9");
            assert(s@ =~= old(s)@ + dec_chars(n as nat / 10) + seq![
                hex_char((n as nat % 10) as int),
            ]);
            assert(old(s)@ + dec_chars(n as nat / 10) + seq![hex_char((n as nat % 10) as int)]
                =~= old(s)@ + dec_chars(n as nat));
        }
    }
}

/// A hundredths count as "whole.fraction" with exactly two fraction digits.
pub open spec fn frac2(q: int) -> Seq<char> {
    dec_chars((q / 100) as nat) + "."@ + seq![hex_char((q / 10) % 10), hex_char(q % 10)]
}

/// Appends `frac2` of a hundredths count.
pub fn push_frac2(s: &mut String, q: u128)
    ensures
        final(s)@ == old(s)@ + frac2(q as int),
{
    push_dec_u128(s, q / 100);
    s.append(".");
    proof {
        reveal_strlit(".");
    }
    let d1 = ((q / 10) % 10) as u8;
    let d0 = (q % 10) as u8;
    let mut t = String::new();
    crate::radix::push_hex_byte(&mut t, d1 * 16 + d0);
    s.append(t.as_str());
    proof {
        assert(t@ =~= seq![hex_char((q as int / 10) % 10), hex_char(q as int % 10)]);
        assert(s@ =~= old(s)@ + frac2(q as int));
    }
}

/// A byte count in the largest fitting unit, with two decimals.
pub open spec fn file_size_chars(bytes: int) -> Seq<char> {
    if bytes > 1000000 {
        frac2((bytes * 100 + 500000) / 1000000) + " MB"@
    } else if bytes > 1000 {
        frac2((bytes * 100 + 500) / 1000) + " KB"@
    } else {
        dec_chars(bytes as nat) + " bytes"@
    }
}

/// Renders a byte count for the run report.
pub fn file_size(bytes: usize) -> (r: String)
    ensures
        r@ == file_size_chars(bytes as int),
{
    let mut s = String::new();
    if bytes > 1000000 {
        let q: u128 = (bytes as u128 * 100 + 500000) / 1000000;
        push_frac2(&mut s, q);
        s.append(" MB");
    } else if bytes > 1000 {
        let q: u128 = (bytes as u128 * 100 + 500) / 1000;
        push_frac2(&mut s, q);
        s.append(" KB");
    } else {
        push_dec_u128(&mut s, bytes as u128);
        s.append(" bytes");
    }
    s
}

/// The signed percentage change from `u` to `p`, in hundredths, as the run
/// report prints it: a minus sign for a reduction, a plus sign for growth,
/// no sign when nothing changed or there was nothing to compare against.
pub open spec fn pct_suffix(u: int, p: int) -> Seq<char> {
    let diff = u - p;
    let q = if u == 0 {
        0int
    } else {
        ((if diff >= 0 {
            diff
        } else {
            -diff
        }) * 10000 + u / 2) / u
    };
    (if diff == 0 || u == 0 {
        ""@
    } else if diff > 0 {
        "-"@
    } else {
        "+"@
    }) + frac2(q)
}

/// Appends the percentage change from `u` to `p`.
pub fn push_pct(s: &mut String, u: usize, p: usize)
    ensures
        final(s)@ == old(s)@ + pct_suffix(u as int, p as int),
{
    let diff_abs: u128 = if u >= p {
        (u - p) as u128
    } else {
        (p - u) as u128
    };
    let q: u128 = if u == 0 {
        0
    } else {
        (diff_abs * 10000 + u as u128 / 2) / (u as u128)
    };
    if u == p || u == 0 {
        s.append("");
        proof {
            reveal_strlit("");
        }
    } else if u > p {
        s.append("-");
        proof {
            reveal_strlit("-");
        }
    } else {
        s.append("+");
        proof {
            reveal_strlit("+");
        }
    }
    push_frac2(s, q);
    proof {
        assert(s@ =~= old(s)@ + pct_suffix(u as int, p as int));
    }
}

/// The file-count line of a run report.
pub open spec fn files_report_chars(u: int, p: int) -> Seq<char> {
    dec_chars(u as nat) + " files -> "@ + dec_chars(p as nat) + " file(s) ("@ + pct_suffix(u, p)
        + "%)"@
}

pub fn files_report(u: usize, p: usize) -> (r: String)
    ensures
        r@ == files_report_chars(u as int, p as int),
{
    let mut s = String::new();
    push_dec_u128(&mut s, u as u128);
    s.append(" files -> ");
    push_dec_u128(&mut s, p as u128);
    s.append(" file(s) (");
    push_pct(&mut s, u, p);
    s.append("%)");
    s
}

/// The byte-size line of a run report.
pub open spec fn size_report_chars(u: int, p: int) -> Seq<char> {
    file_size_chars(u) + " -> "@ + file_size_chars(p) + " ("@ + pct_suffix(u, p) + "%)"@
}

pub fn size_report(u: usize, p: usize) -> (r: String)
    ensures
        r@ == size_report_chars(u as int, p as int),
{
    let mut s = file_size(u);
    s.append(" -> ");
    let t = file_size(p);
    s.append(t.as_str());
    s.append(" (");
    push_pct(&mut s, u, p);
    s.append("%)");
    s
}

/// An elapsed time in whole seconds and milliseconds.
pub open spec fn elapsed_report_chars(micros: int) -> Seq<char> {
    dec_chars((micros / 1000000) as nat) + "."@ + seq![
        hex_char((micros / 100000) % 10),
        hex_char((micros / 10000) % 10),
        hex_char((micros / 1000) % 10),
    ] + "s"@
}

pub fn elapsed_report(micros: u64) -> (r: String)
    ensures
        r@ == elapsed_report_chars(micros as int),
{
    let mut s = String::new();
    push_dec_u128(&mut s, micros as u128 / 1000000);
    s.append(".");
    proof {
        reveal_strlit(".");
    }
    let d2 = ((micros / 100000) % 10) as u8;
    let d1 = ((micros / 10000) % 10) as u8;
    let d0 = ((micros / 1000) % 10) as u8;
    s.append(crate::radix::hex_char_str(d2));
    s.append(crate::radix::hex_char_str(d1));
    s.append(crate::radix::hex_char_str(d0));
    s.append("s");
    proof {
        assert(s@ =~= elapsed_report_chars(micros as int));
    }
    s
}

} // verus!
