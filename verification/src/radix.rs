//! Hexadecimal and decimal renderings of integers as ASCII bytes, and the
//! inverse readers, used by the frame formats and the chunk wrappers.

use vstd::prelude::*;

verus! {

/// ASCII code of the lowercase hexadecimal digit for a value below 16.
pub open spec fn hex_digit(n: int) -> u8
    recommends
        0 <= n < 16,
{
    if n < 10 {
        (48 + n) as u8
    } else {
        (87 + n) as u8
    }
}

/// Minimal-width lowercase hexadecimal rendering of `n` (a single `0` for zero).
pub open spec fn hex_rep(n: nat) -> Seq<u8>
    decreases n,
{
    if n < 16 {
        seq![hex_digit(n as int)]
    } else {
        hex_rep(n / 16) + seq![hex_digit((n % 16) as int)]
    }
}

/// Minimal-width decimal rendering of `n` (a single `0` for zero).
pub open spec fn dec_rep(n: nat) -> Seq<u8>
    decreases n,
{
    if n < 10 {
        seq![(48 + n) as u8]
    } else {
        dec_rep(n / 10) + seq![(48 + n % 10) as u8]
    }
}

pub open spec fn is_hex_digit(b: u8) -> bool {
    (48 <= b <= 57) || (97 <= b <= 102) || (65 <= b <= 70)
}

pub open spec fn is_dec_digit(b: u8) -> bool {
    48 <= b <= 57
}

/// Numeric value of one hexadecimal digit byte (either case).
pub open spec fn hex_digit_val(b: u8) -> nat
    recommends
        is_hex_digit(b),
{
    if 48 <= b <= 57 {
        (b - 48) as nat
    } else if 97 <= b <= 102 {
        (b - 87) as nat
    } else {
        (b - 55) as nat
    }
}

/// Value of a big-endian string of hexadecimal digit bytes.
pub open spec fn hex_token_val(s: Seq<u8>) -> nat
    decreases s.len(),
{
    if s.len() == 0 {
        0
    } else {
        hex_token_val(s.drop_last()) * 16 + hex_digit_val(s.last())
    }
}

pub open spec fn all_hex_digits(s: Seq<u8>) -> bool {
    forall|i: int| 0 <= i < s.len() ==> is_hex_digit(#[trigger] s[i])
}

pub proof fn lemma_hex_rep_digits(n: nat)
    ensures
        all_hex_digits(hex_rep(n)),
        hex_rep(n).len() >= 1,
    decreases n,
{
    if n >= 16 {
        lemma_hex_rep_digits(n / 16);
    }
}

/// Reading back the hexadecimal rendering of `n` yields `n`.
pub proof fn lemma_hex_round_trip(n: nat)
    ensures
        hex_token_val(hex_rep(n)) == n,
    decreases n,
{
    if n < 16 {
        let r = hex_rep(n);
        assert(r =~= seq![hex_digit(n as int)]);
        assert(r.drop_last() =~= Seq::<u8>::empty());
        assert(hex_token_val(r) == hex_token_val(r.drop_last()) * 16 + hex_digit_val(r.last()));
        assert(hex_digit_val(hex_digit(n as int)) == n);
    } else {
        lemma_hex_round_trip(n / 16);
        let r = hex_rep(n);
        assert(r.drop_last() =~= hex_rep(n / 16));
        assert(r.last() == hex_digit((n % 16) as int));
        assert(hex_digit_val(hex_digit((n % 16) as int)) == n % 16);
    }
}

/// Value of a big-endian string of decimal digit bytes.
pub open spec fn dec_token_val(s: Seq<u8>) -> nat
    decreases s.len(),
{
    if s.len() == 0 {
        0
    } else {
        dec_token_val(s.drop_last()) * 10 + (s.last() - 48) as nat
    }
}

pub open spec fn all_dec_digits(s: Seq<u8>) -> bool {
    forall|i: int| 0 <= i < s.len() ==> is_dec_digit(#[trigger] s[i])
}

pub proof fn lemma_dec_rep_digits(n: nat)
    ensures
        all_dec_digits(dec_rep(n)),
        dec_rep(n).len() >= 1,
    decreases n,
{
    if n >= 10 {
        lemma_dec_rep_digits(n / 10);
    }
}

/// Reading back the decimal rendering of `n` yields `n`.
pub proof fn lemma_dec_round_trip(n: nat)
    ensures
        dec_token_val(dec_rep(n)) == n,
    decreases n,
{
    if n < 10 {
        let r = dec_rep(n);
        assert(r =~= seq![(48 + n) as u8]);
        assert(r.drop_last() =~= Seq::<u8>::empty());
        assert(dec_token_val(Seq::<u8>::empty()) == 0);
    } else {
        lemma_dec_round_trip(n / 10);
        let r = dec_rep(n);
        assert(r.drop_last() =~= dec_rep(n / 10));
        assert(r.last() == (48 + n % 10) as u8);
        assert(dec_token_val(r) == (n / 10) * 10 + n % 10);
        vstd::arithmetic::div_mod::lemma_fundamental_div_mod(n as int, 10);
    }
}

/// Width of the decimal rendering of a byte value.
pub proof fn lemma_dec_rep_len_u8(n: nat)
    requires
        n <= 255,
    ensures
        dec_rep(n).len() == (if n < 10 {
            1int
        } else if n < 100 {
            2int
        } else {
            3int
        }),
{
    if n >= 10 {
        let m = n / 10;
        assert(dec_rep(n) == dec_rep(m) + seq![(48 + n % 10) as u8]);
        if n >= 100 {
            assert(10 <= m <= 25);
            assert(dec_rep(m) == dec_rep(m / 10) + seq![(48 + m % 10) as u8]);
            assert(m / 10 < 10);
            assert(dec_rep(m / 10).len() == 1);
        } else {
            assert(m < 10);
            assert(dec_rep(m).len() == 1);
        }
    }
}

/// Closed forms of short decimal tokens.
pub proof fn lemma_dec_token_val3(t: Seq<u8>)
    requires
        1 <= t.len() <= 3,
        all_dec_digits(t),
    ensures
        t.len() == 1 ==> dec_token_val(t) == t[0] - 48,
        t.len() == 2 ==> dec_token_val(t) == (t[0] - 48) * 10 + (t[1] - 48),
        t.len() == 3 ==> dec_token_val(t) == ((t[0] - 48) * 10 + (t[1] - 48)) * 10 + (t[2] - 48),
{
    if t.len() == 1 {
        assert(t.drop_last() =~= Seq::<u8>::empty());
        assert(dec_token_val(t.drop_last()) == 0);
    } else if t.len() == 2 {
        let u = t.drop_last();
        assert(u.drop_last() =~= Seq::<u8>::empty());
        assert(dec_token_val(u.drop_last()) == 0);
        assert(dec_token_val(u) == u[0] - 48);
        assert(u[0] == t[0] && u.last() == t[0]);
    } else {
        let u = t.drop_last();
        let w = u.drop_last();
        assert(w.drop_last() =~= Seq::<u8>::empty());
        assert(dec_token_val(w.drop_last()) == 0);
        assert(dec_token_val(w) == w[0] - 48);
        assert(dec_token_val(u) == dec_token_val(w) * 10 + (u.last() - 48));
        assert(w[0] == t[0] && u.last() == t[1] && t.last() == t[2]);
    }
}

/// Renders `n` as minimal-width lowercase hexadecimal ASCII.
pub fn hex_of_usize(n: usize) -> (r: Vec<u8>)
    ensures
        r@ == hex_rep(n as nat),
    decreases n,
{
    if n < 16 {
        let d: u8 = if n < 10 {
            (48 + n as u8)
        } else {
            (87 + n as u8)
        };
        let mut v: Vec<u8> = Vec::new();
        v.push(d);
        assert(v@ =~= hex_rep(n as nat));
        v
    } else {
        let mut v = hex_of_usize(n / 16);
        let m: usize = n % 16;
        let d: u8 = if m < 10 {
            (48 + m as u8)
        } else {
            (87 + m as u8)
        };
        v.push(d);
        assert(v@ =~= hex_rep(n as nat));
        v
    }
}

/// Renders `n` as minimal-width decimal ASCII.
pub fn dec_of_usize(n: usize) -> (r: Vec<u8>)
    ensures
        r@ == dec_rep(n as nat),
    decreases n,
{
    if n < 10 {
        let mut v: Vec<u8> = Vec::new();
        v.push(48 + n as u8);
        assert(v@ =~= dec_rep(n as nat));
        v
    } else {
        let mut v = dec_of_usize(n / 10);
        v.push(48 + (n % 10) as u8);
        assert(v@ =~= dec_rep(n as nat));
        v
    }
}

/// Lowercase hexadecimal digit character for a value below 16.
pub open spec fn hex_char(n: int) -> char
    recommends
        0 <= n < 16,
{
    if n == 0 {
        '0'
    } else if n == 1 {
        '1'
    } else if n == 2 {
        '2'
    } else if n == 3 {
        '3'
    } else if n == 4 {
        '4'
    } else if n == 5 {
        '5'
    } else if n == 6 {
        '6'
    } else if n == 7 {
        '7'
    } else if n == 8 {
        '8'
    } else if n == 9 {
        '9'
    } else if n == 10 {
        'a'
    } else if n == 11 {
        'b'
    } else if n == 12 {
        'c'
    } else if n == 13 {
        'd'
    } else if n == 14 {
        'e'
    } else {
        'f'
    }
}

/// Two lowercase hexadecimal characters per byte, in order.
pub open spec fn hex_chars_of(bs: Seq<u8>) -> Seq<char>
    decreases bs.len(),
{
    if bs.len() == 0 {
        Seq::empty()
    } else {
        hex_chars_of(bs.drop_last()) + seq![
            hex_char(bs.last() as int / 16),
            hex_char(bs.last() as int % 16),
        ]
    }
}

/// One hexadecimal digit as a string slice.
pub(crate) fn hex_char_str(n: u8) -> (r: &'static str)
    requires
        n < 16,
    ensures
        r@ == seq![hex_char(n as int)],
{
    if n == 0 {
        proof {
            reveal_strlit("0");
        }
        assert("0"@ =~= seq![hex_char(0)]);
        "0"
    } else if n == 1 {
        proof {
            reveal_strlit("1");
        }
        assert("1"@ =~= seq![hex_char(1)]);
        "1"
    } else if n == 2 {
        proof {
            reveal_strlit("2");
        }
        assert("2"@ =~= seq![hex_char(2)]);
        "2"
    } else if n == 3 {
        proof {
            reveal_strlit("3");
        }
        assert("3"@ =~= seq![hex_char(3)]);
        "3"
    } else if n == 4 {
        proof {
            reveal_strlit("4");
        }
        assert("4"@ =~= seq![hex_char(4)]);
        "4"
    } else if n == 5 {
        proof {
            reveal_strlit("5");
        }
        assert("5"@ =~= seq![hex_char(5)]);
        "5"
    } else if n == 6 {
        proof {
            reveal_strlit("6");
        }
        assert("6"@ =~= seq![hex_char(6)]);
        "6"
    } else if n == 7 {
        proof {
            reveal_strlit("7");
        }
        assert("7"@ =~= seq![hex_char(7)]);
        "7"
    } else if n == 8 {
        proof {
            reveal_strlit("8");
        }
        assert("8"@ =~= seq![hex_char(8)]);
        "8"
    } else if n == 9 {
        proof {
            reveal_strlit("9");
        }
        assert("9"@ =~= seq![hex_char(9)]);
        "9"
    } else if n == 10 {
        proof {
            reveal_strlit("a");
        }
        assert("a"@ =~= seq![hex_char(10)]);
        "a"
    } else if n == 11 {
        proof {
            reveal_strlit("b");
        }
        assert("b"@ =~= seq![hex_char(11)]);
        "b"
    } else if n == 12 {
        proof {
            reveal_strlit("c");
        }
        assert("c"@ =~= seq![hex_char(12)]);
        "c"
    } else if n == 13 {
        proof {
            reveal_strlit("d");
        }
        assert("d"@ =~= seq![hex_char(13)]);
        "d"
    } else if n == 14 {
        proof {
            reveal_strlit("e");
        }
        assert("e"@ =~= seq![hex_char(14)]);
        "e"
    } else {
        proof {
            reveal_strlit("f");
        }
        assert("f"@ =~= seq![hex_char(15)]);
        "f"
    }
}

/// Appends the two hexadecimal characters of one byte.
pub fn push_hex_byte(s: &mut String, b: u8)
    ensures
        final(s)@ == old(s)@ + seq![hex_char(b as int / 16), hex_char(b as int % 16)],
{
    let hi = b / 16;
    let lo = b % 16;
    s.append(hex_char_str(hi));
    s.append(hex_char_str(lo));
    proof {
        assert(old(s)@ + seq![hex_char(hi as int)] + seq![hex_char(lo as int)] =~= old(s)@ + seq![
            hex_char(b as int / 16),
            hex_char(b as int % 16),
        ]);
    }
}

/// Minimal-width decimal rendering as characters.
pub open spec fn dec_chars(n: nat) -> Seq<char>
    decreases n,
{
    if n < 10 {
        seq![hex_char(n as int)]
    } else {
        dec_chars(n / 10) + seq![hex_char((n % 10) as int)]
    }
}

/// Appends the decimal rendering of `n`.
pub fn push_dec_usize(s: &mut String, n: usize)
    ensures
        final(s)@ == old(s)@ + dec_chars(n as nat),
    decreases n,
{
    if n < 10 {
        s.append(hex_char_str(n as u8));
    } else {
        push_dec_usize(s, n / 10);
        s.append(hex_char_str((n % 10) as u8));
        proof {
            assert(old(s)@ + dec_chars(n as nat / 10) + seq![hex_char((n as nat % 10) as int)]
                =~= old(s)@ + dec_chars(n as nat));
        }
    }
}

/// Reads a big-endian hexadecimal token; `None` when the token is empty,
/// holds a non-digit, or exceeds `u32::MAX`.
pub fn parse_hex_u32(s: &[u8], from: usize, to: usize) -> (r: Option<u32>)
    requires
        from <= to <= s@.len(),
    ensures
        ({
            let t = s@.subrange(from as int, to as int);
            match r {
                Some(v) => t.len() > 0 && all_hex_digits(t) && hex_token_val(t) <= u32::MAX
                    && v == hex_token_val(t),
                None => t.len() == 0 || !all_hex_digits(t) || hex_token_val(t) > u32::MAX,
            }
        }),
{
    let ghost t = s@.subrange(from as int, to as int);
    if from == to {
        return None;
    }
    let mut acc: u64 = 0;
    let mut i: usize = from;
    while i < to
        invariant
            from <= i <= to <= s@.len(),
            t == s@.subrange(from as int, to as int),
            all_hex_digits(t.take(i - from)),
            acc == hex_token_val(t.take(i - from)),
            acc <= u32::MAX,
        decreases to - i,
    {
        let b = s[i];
        let d: u64 = if 48 <= b && b <= 57 {
            (b - 48) as u64
        } else if 97 <= b && b <= 102 {
            (b - 87) as u64
        } else if 65 <= b && b <= 70 {
            (b - 55) as u64
        } else {
            proof {
                assert(t[i - from] == b);
                assert(!is_hex_digit(t[i - from]));
            }
            return None;
        };
        proof {
            assert(t[i - from] == b);
            assert(t.take(i + 1 - from).drop_last() =~= t.take(i - from));
            assert(t.take(i + 1 - from).last() == b);
        }
        acc = acc * 16 + d;
        if acc > u32::MAX as u64 {
            proof {
                lemma_hex_prefix_monotone(t, i + 1 - from);
            }
            return None;
        }
        i = i + 1;
    }
    proof {
        assert(t.take(to - from) =~= t);
    }
    Some(acc as u32)
}

/// The value of a hexadecimal token is at least the value of any of its prefixes.
proof fn lemma_hex_prefix_monotone(s: Seq<u8>, k: int)
    requires
        0 <= k <= s.len(),
    ensures
        hex_token_val(s) >= hex_token_val(s.take(k)),
    decreases s.len() - k,
{
    if k < s.len() {
        lemma_hex_prefix_monotone(s, k + 1);
        assert(s.take(k + 1).drop_last() =~= s.take(k));
        assert(hex_token_val(s.take(k + 1)) == hex_token_val(s.take(k)) * 16 + hex_digit_val(
            s.take(k + 1).last(),
        ));
    } else {
        assert(s.take(k) =~= s);
    }
}

} // verus!
