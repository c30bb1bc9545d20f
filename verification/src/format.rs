//! Human-readable rendering of byte sizes and percentages.
//!
//! All arithmetic is exact: a size is scaled by the unit base, rounded to the
//! requested number of decimal places (nearest, ties to even), and printed.

use vstd::arithmetic::power::{lemma_pow_increases, lemma_pow_positive, pow};
use vstd::prelude::*;
use vstd::string::StringExecFns;

verus! {

/// Unit system for size formatting.
#[derive(Debug, Clone, Copy, PartialEq, Eq, Structural)]
pub enum UnitSystem {
    /// Binary units (1024-based).
    Binary,
    /// SI units (1000-based).
    Si,
}

impl Default for UnitSystem {
    fn default() -> (r: Self)
        ensures
            r == UnitSystem::Binary,
    {
        UnitSystem::Binary
    }
}

/// The character for a single decimal digit.
pub open spec fn digit_char(d: int) -> char {
    if d == 0 {
        '0'
    } else if d == 1 {
        '1'
    } else if d == 2 {
        '2'
    } else if d == 3 {
        '3'
    } else if d == 4 {
        '4'
    } else if d == 5 {
        '5'
    } else if d == 6 {
        '6'
    } else if d == 7 {
        '7'
    } else if d == 8 {
        '8'
    } else {
        '9'
    }
}

/// The decimal rendering of a natural number, without leading zeros.
pub open spec fn spec_dec(n: nat) -> Seq<char>
    decreases n,
{
    if n < 10 {
        seq![digit_char(n as int)]
    } else {
        spec_dec(n / 10) + seq![digit_char((n % 10) as int)]
    }
}

/// The last `width` decimal digits of `n`, zero-padded to exactly `width` characters.
pub open spec fn spec_pad_dec(n: int, width: nat) -> Seq<char>
    decreases width,
{
    if width == 0 {
        Seq::empty()
    } else {
        spec_pad_dec(n / 10, (width - 1) as nat) + seq![digit_char(n % 10)]
    }
}

/// `num / den` rounded to the nearest integer, ties to even.
pub open spec fn round_half_even(num: int, den: int) -> int {
    let q = num / den;
    let r = num % den;
    if 2 * r > den {
        q + 1
    } else if 2 * r < den {
        q
    } else if q % 2 == 0 {
        q
    } else {
        q + 1
    }
}

/// The multiplicative base of a unit system.
pub open spec fn spec_base(us: UnitSystem) -> int {
    if us == UnitSystem::Binary {
        1024
    } else {
        1000
    }
}

/// The unit label printed for scale step `k` of a unit system.
pub open spec fn spec_unit_label(us: UnitSystem, k: int) -> Seq<char> {
    if us == UnitSystem::Binary {
        if k == 0 {
            seq!['B']
        } else if k == 1 {
            seq!['K']
        } else if k == 2 {
            seq!['M']
        } else if k == 3 {
            seq!['G']
        } else if k == 4 {
            seq!['T']
        } else {
            seq!['P']
        }
    } else {
        if k == 0 {
            seq!['B']
        } else if k == 1 {
            seq!['K', 'B']
        } else if k == 2 {
            seq!['M', 'B']
        } else if k == 3 {
            seq!['G', 'B']
        } else if k == 4 {
            seq!['T', 'B']
        } else {
            seq!['P', 'B']
        }
    }
}

/// How many times a byte count is divided by the base before printing:
/// the largest `k <= 5` with `bytes >= base^k`.
pub open spec fn spec_unit_index(bytes: int, base: int) -> nat {
    if bytes < pow(base, 1) {
        0
    } else if bytes < pow(base, 2) {
        1
    } else if bytes < pow(base, 3) {
        2
    } else if bytes < pow(base, 4) {
        3
    } else if bytes < pow(base, 5) {
        4
    } else {
        5
    }
}

/// The full rendering of a byte count: `bytes / base^k` with `p` decimal
/// places (rounded nearest, ties to even), a space, and the unit label.
/// Zero is printed as `0 B`; so is any count below the first unit step,
/// without decimal places.
pub open spec fn spec_format_size(bytes: nat, us: UnitSystem, p: nat) -> Seq<char> {
    if bytes == 0 {
        seq!['0', ' ', 'B']
    } else {
        let base = spec_base(us);
        let k = spec_unit_index(bytes as int, base);
        if k == 0 {
            spec_dec(bytes) + seq![' '] + spec_unit_label(us, 0)
        } else {
            let scaled = round_half_even(bytes * pow(10, p), pow(base, k));
            if p == 0 {
                spec_dec(scaled as nat) + seq![' '] + spec_unit_label(us, k as int)
            } else {
                spec_dec((scaled / pow(10, p)) as nat) + seq!['.'] + spec_pad_dec(
                    scaled % pow(10, p),
                    p,
                ) + seq![' '] + spec_unit_label(us, k as int)
            }
        }
    }
}

/// The rendering of `part` out of `total` as a whole-number percentage
/// (rounded nearest, ties to even), right-aligned to at least three
/// characters, with a trailing percent sign. A zero total prints `0%`.
pub open spec fn spec_format_percentage(part: int, total: int) -> Seq<char> {
    if total == 0 {
        seq!['0', '%']
    } else {
        let pct = round_half_even(100 * part, total);
        (if pct < 10 {
            seq![' ', ' ']
        } else if pct < 100 {
            seq![' ']
        } else {
            Seq::empty()
        }) + spec_dec(pct as nat) + seq!['%']
    }
}

fn digit_str(d: u64) -> (r: &'static str)
    requires
        d < 10,
    ensures
        r@ =~= seq![digit_char(d as int)],
{
    proof {
        reveal_strlit("0");
        reveal_strlit("1");
        reveal_strlit("2");
        reveal_strlit("3");
        reveal_strlit("4");
        reveal_strlit("5");
        reveal_strlit("6");
        reveal_strlit("7");
        reveal_strlit("8");
        reveal_strlit("9");
    }
    if d == 0 {
        "0"
    } else if d == 1 {
        "1"
    } else if d == 2 {
        "2"
    } else if d == 3 {
        "3"
    } else if d == 4 {
        "4"
    } else if d == 5 {
        "5"
    } else if d == 6 {
        "6"
    } else if d == 7 {
        "7"
    } else if d == 8 {
        "8"
    } else {
        "9"
    }
}

/// The decimal rendering of `n` as a fresh string.
fn dec_string(n: u128) -> (r: String)
    ensures
        r@ == spec_dec(n as nat),
    decreases n,
{
    if n < 10 {
        digit_str(n as u64).to_owned()
    } else {
        let mut s = dec_string(n / 10);
        s.append(digit_str((n % 10) as u64));
        assert(s@ =~= spec_dec(n as nat));
        s
    }
}

/// The last `width` decimal digits of `n`, zero-padded to `width` characters.
fn pad_string(n: u128, width: usize) -> (r: String)
    ensures
        r@ == spec_pad_dec(n as int, width as nat),
    decreases width,
{
    if width == 0 {
        String::new()
    } else {
        let mut s = pad_string(n / 10, width - 1);
        s.append(digit_str((n % 10) as u64));
        assert(s@ =~= spec_pad_dec(n as int, width as nat));
        s
    }
}

fn unit_str(us: UnitSystem, k: usize) -> (r: &'static str)
    requires
        k <= 5,
    ensures
        r@ =~= spec_unit_label(us, k as int),
{
    proof {
        reveal_strlit("B");
        reveal_strlit("K");
        reveal_strlit("M");
        reveal_strlit("G");
        reveal_strlit("T");
        reveal_strlit("P");
        reveal_strlit("KB");
        reveal_strlit("MB");
        reveal_strlit("GB");
        reveal_strlit("TB");
        reveal_strlit("PB");
    }
    match us {
        UnitSystem::Binary => {
            if k == 0 {
                "B"
            } else if k == 1 {
                "K"
            } else if k == 2 {
                "M"
            } else if k == 3 {
                "G"
            } else if k == 4 {
                "T"
            } else {
                "P"
            }
        },
        UnitSystem::Si => {
            if k == 0 {
                "B"
            } else if k == 1 {
                "KB"
            } else if k == 2 {
                "MB"
            } else if k == 3 {
                "GB"
            } else if k == 4 {
                "TB"
            } else {
                "PB"
            }
        },
    }
}

/// A power of a nonnegative base is nonnegative.
proof fn lemma_pow_nonneg(a: int, e: nat)
    requires
        a >= 0,
    ensures
        pow(a, e) >= 0,
    decreases e,
{
    reveal(pow);
    if e > 0 {
        lemma_pow_nonneg(a, (e - 1) as nat);
        assert(pow(a, e) == a * pow(a, (e - 1) as nat));
        assert(a * pow(a, (e - 1) as nat) >= 0) by (nonlinear_arith)
            requires
                a >= 0,
                pow(a, (e - 1) as nat) >= 0,
        ;
    }
}

/// `pow` is monotone in its base for nonnegative bases.
proof fn lemma_pow_base_le(a: int, b: int, e: nat)
    requires
        0 <= a <= b,
    ensures
        pow(a, e) <= pow(b, e),
    decreases e,
{
    reveal(pow);
    if e > 0 {
        lemma_pow_base_le(a, b, (e - 1) as nat);
        lemma_pow_nonneg(a, (e - 1) as nat);
        lemma_pow_nonneg(b, (e - 1) as nat);
        assert(pow(a, e) == a * pow(a, (e - 1) as nat));
        assert(pow(b, e) == b * pow(b, (e - 1) as nat));
        assert(a * pow(a, (e - 1) as nat) <= b * pow(b, (e - 1) as nat)) by (nonlinear_arith)
            requires
                0 <= a <= b,
                0 <= pow(a, (e - 1) as nat) <= pow(b, (e - 1) as nat),
        ;
    }
}

/// Format a size in bytes as a human-readable string.
///
/// The precision bound keeps the exact scaling `bytes * 10^precision`
/// within 128-bit arithmetic.
pub fn format_size(bytes: u64, unit_system: UnitSystem, precision: usize) -> (r: String)
    requires
        precision <= 19,
    ensures
        r@ == spec_format_size(bytes as nat, unit_system, precision as nat),
{
    if bytes == 0 {
        proof {
            reveal_strlit("0 B");
        }
        let z = "0 B".to_owned();
        assert(z@ =~= spec_format_size(0, unit_system, precision as nat));
        return z;
    }
    let base: u64 = match unit_system {
        UnitSystem::Binary => 1024,
        UnitSystem::Si => 1000,
    };
    let ghost bi = base as int;
    // Find the unit step: the largest k <= 5 with bytes >= base^k.
    let mut k: usize = 0;
    let mut d: u64 = 1;
    proof {
        vstd::arithmetic::power::lemma_pow0(bi);
    }
    while k < 5 && bytes >= d * base
        invariant
            1000 <= base <= 1024,
            bi == base as int,
            bi == spec_base(unit_system),
            k <= 5,
            d as int == pow(bi, k as nat),
            bytes as int >= pow(bi, k as nat),
            bytes >= 1,
            k < 5 ==> d <= 1099511627776,
        decreases 5 - k,
    {
        d = d * base;
        k = k + 1;
        assert(d as int == pow(bi, k as nat)) by {
            vstd::arithmetic::power::lemma_pow_adds(bi, (k - 1) as nat, 1);
            vstd::arithmetic::power::lemma_pow1(bi);
        }
        proof {
            if k < 5 {
                lemma_pow_increases(bi as nat, k as nat, 4);
                lemma_pow_base_le(bi, 1024, 4);
                assert(pow(1024, 4) == 1099511627776) by {
                    reveal_with_fuel(pow, 5);
                }
            }
        }
    }
    proof {
        // The loop exit pins k as the spec unit index.
        lemma_unit_index_matches(bytes as int, bi, k as nat, d as int);
    }
    let ghost kk = k as nat;
    if k == 0 {
        let mut s = dec_string(bytes as u128);
        proof {
            reveal_strlit(" ");
        }
        s.append(" ");
        s.append(unit_str(unit_system, 0));
        assert(s@ =~= spec_format_size(bytes as nat, unit_system, precision as nat));
        return s;
    }
    // Exact scaling: scaled = round_half_even(bytes * 10^precision, base^k).
    let mut p10: u64 = 1;
    let mut i: usize = 0;
    proof {
        vstd::arithmetic::power::lemma_pow0(10);
    }
    while i < precision
        invariant
            i <= precision,
            precision <= 19,
            p10 as int == pow(10, i as nat),
        decreases precision - i,
    {
        proof {
            lemma_pow_increases(10, i as nat, 18);
            assert(pow(10, 18) == 1000000000000000000) by {
                vstd::arithmetic::power::lemma_pow0(10);
                reveal_with_fuel(pow, 19);
            }
        }
        p10 = p10 * 10;
        i = i + 1;
        assert(p10 as int == pow(10, i as nat)) by {
            vstd::arithmetic::power::lemma_pow_adds(10, (i - 1) as nat, 1);
            vstd::arithmetic::power::lemma_pow1(10);
        }
    }
    proof {
        lemma_pow_increases(10, precision as nat, 19);
        assert(pow(10, 19) == 10000000000000000000) by {
            reveal_with_fuel(pow, 20);
        }
        assert((bytes as int) * (p10 as int) <= 0xffffffffffffffff * 10000000000000000000)
            by (nonlinear_arith)
            requires
                bytes as int <= 0xffffffffffffffff,
                0 <= p10 as int <= 10000000000000000000,
        ;
    }
    let num: u128 = (bytes as u128) * (p10 as u128);
    let den: u128 = d as u128;
    proof {
        lemma_pow_positive(bi, kk);
    }
    let q: u128 = num / den;
    let rm: u128 = num % den;
    proof {
        vstd::arithmetic::div_mod::lemma_div_nonincreasing(num as int, den as int);
    }
    let scaled: u128 = if 2 * rm > den {
        q + 1
    } else if 2 * rm < den {
        q
    } else if q % 2 == 0 {
        q
    } else {
        q + 1
    };
    let ghost spec_scaled = round_half_even(
        bytes as int * pow(10, precision as nat),
        pow(bi, kk),
    );
    proof {
        assert(num as int == bytes as int * pow(10, precision as nat));
        assert(scaled as int == spec_scaled);
    }
    if precision == 0 {
        let mut s = dec_string(scaled);
        proof {
            reveal_strlit(" ");
        }
        s.append(" ");
        s.append(unit_str(unit_system, k));
        assert(s@ =~= spec_format_size(bytes as nat, unit_system, precision as nat));
        s
    } else {
        proof {
            lemma_pow_positive(10, precision as nat);
        }
        let whole: u128 = scaled / (p10 as u128);
        let frac: u128 = scaled % (p10 as u128);
        let mut s = dec_string(whole);
        proof {
            reveal_strlit(".");
            reveal_strlit(" ");
        }
        s.append(".");
        let fs = pad_string(frac, precision);
        s.append(fs.as_str());
        s.append(" ");
        s.append(unit_str(unit_system, k));
        assert(s@ =~= spec_format_size(bytes as nat, unit_system, precision as nat));
        s
    }
}

/// Characterizes the unit-step loop's result as `spec_unit_index`.
proof fn lemma_unit_index_matches(bytes: int, base: int, k: nat, d: int)
    requires
        1000 <= base <= 1024,
        k <= 5,
        d == pow(base, k),
        bytes >= pow(base, k),
        k == 5 || bytes < d * base,
    ensures
        spec_unit_index(bytes, base) == k,
{
    assert forall|j: nat| j <= k implies bytes >= pow(base, j) by {
        lemma_pow_increases(base as nat, j, k);
    }
    if k < 5 {
        assert(bytes < pow(base, (k + 1) as nat)) by {
            vstd::arithmetic::power::lemma_pow_adds(base, k, 1);
            vstd::arithmetic::power::lemma_pow1(base);
        }
    }
}

/// Format a size in bytes with one decimal place in binary units.
pub fn format_size_auto(bytes: u64) -> (r: String)
    ensures
        r@ == spec_format_size(bytes as nat, UnitSystem::Binary, 1),
{
    format_size(bytes, UnitSystem::Binary, 1)
}

/// Render `part` of `total` as a percentage string.
pub fn format_percentage(part: u64, total: u64) -> (r: String)
    ensures
        r@ == spec_format_percentage(part as int, total as int),
{
    if total == 0 {
        proof {
            reveal_strlit("0%");
        }
        let z = "0%".to_owned();
        assert(z@ =~= spec_format_percentage(part as int, 0));
        return z;
    }
    let num: u128 = (part as u128) * 100;
    let den: u128 = total as u128;
    let q: u128 = num / den;
    let rm: u128 = num % den;
    proof {
        vstd::arithmetic::div_mod::lemma_div_nonincreasing(num as int, den as int);
    }
    let pct: u128 = if 2 * rm > den {
        q + 1
    } else if 2 * rm < den {
        q
    } else if q % 2 == 0 {
        q
    } else {
        q + 1
    };
    proof {
        reveal_strlit("  ");
        reveal_strlit(" ");
        reveal_strlit("%");
    }
    let mut s: String = if pct < 10 {
        "  ".to_owned()
    } else if pct < 100 {
        " ".to_owned()
    } else {
        String::new()
    };
    let ds = dec_string(pct);
    s.append(ds.as_str());
    s.append("%");
    assert(s@ =~= spec_format_percentage(part as int, total as int));
    s
}

} // verus!

