//! Stateless presentation helpers: human-readable byte sizes, padding, and
//! the bracketed proportion bar of eight cells with one partial-cell glyph.
//!
//! Sizes at or above 1024 bytes are shown with one fractional digit and a
//! binary-multiple unit, the fraction rounded half up.

use vstd::prelude::*;
use vstd::string::StringExecFns;

verus! {

/// The character of one decimal digit.
pub open spec fn digit_char(d: int) -> char {
    if d == 0 {
        '0'
    } else if d == 1 {
        '1'
    } else if d == 2 {
        '2'
    } else if d == 3 {
        '3'
    } else if d == 4 {
        '4'
    } else if d == 5 {
        '5'
    } else if d == 6 {
        '6'
    } else if d == 7 {
        '7'
    } else if d == 8 {
        '8'
    } else {
        '9'
    }
}

/// The decimal digits of a nonnegative number.
pub open spec fn dec_spec(n: int) -> Seq<char>
    decreases n,
{
    if n < 10 {
        seq![digit_char(n)]
    } else {
        dec_spec(n / 10).push(digit_char(n % 10))
    }
}

/// `k` spaces.
pub open spec fn spaces(k: int) -> Seq<char>
    decreases k,
{
    if k <= 0 {
        Seq::empty()
    } else {
        spaces(k - 1).push(' ')
    }
}

/// `k` full blocks.
pub open spec fn blocks(k: int) -> Seq<char>
    decreases k,
{
    if k <= 0 {
        Seq::empty()
    } else {
        blocks(k - 1).push('█')
    }
}

/// 1024 to the `e`th power.
pub open spec fn pow1024(e: int) -> int
    decreases e,
{
    if e <= 0 {
        1
    } else {
        1024 * pow1024(e - 1)
    }
}

/// The binary-multiple exponent of `n`: the largest `e` with
/// `pow1024(e) <= n`.
pub open spec fn exp_of(n: int) -> int
    decreases n,
{
    if n < 1024 {
        0
    } else {
        1 + exp_of(n / 1024)
    }
}

/// The unit suffix for exponent `e` in `1..=6`.
pub open spec fn unit_chars(e: int) -> Seq<char> {
    if e == 1 {
        seq!['k', 'B']
    } else if e == 2 {
        seq!['M', 'B']
    } else if e == 3 {
        seq!['G', 'B']
    } else if e == 4 {
        seq!['T', 'B']
    } else if e == 5 {
        seq!['P', 'B']
    } else {
        seq!['E', 'B']
    }
}

/// Tenths of `n / pow1024(exp_of(n))`, rounded half up.
pub open spec fn tenths_of(n: int) -> int {
    (10 * n + pow1024(exp_of(n)) / 2) / pow1024(exp_of(n))
}

/// The human-readable text of a byte count: plain digits below 1024, one
/// fractional digit and a unit from kB to EB above.
pub open spec fn pretty_spec(bytes: u64) -> Seq<char> {
    if bytes < 1024 {
        dec_spec(bytes as int)
    } else {
        let t = tenths_of(bytes as int);
        dec_spec(t / 10) + seq!['.', digit_char(t % 10)] + unit_chars(exp_of(bytes as int))
    }
}

/// The pretty text, right-aligned in eight columns.
pub open spec fn padded_spec(bytes: u64) -> Seq<char> {
    spaces(8 - pretty_spec(bytes).len()) + pretty_spec(bytes)
}

/// Full cells of the bar: `child/parent` in eighths, at most 7.
pub open spec fn bar_filled(child: u64, parent: u64) -> int {
    if parent == 0 {
        0
    } else if 8 * child as int / parent as int > 7 {
        7
    } else {
        8 * child as int / parent as int
    }
}

/// The partial-cell glyph index in `0..=8`: the remaining fraction of one
/// cell in eighths of a cell, rounded half up.
pub open spec fn bar_partial(child: u64, parent: u64) -> int {
    if parent == 0 {
        0
    } else {
        let f = bar_filled(child, parent);
        let num = 64 * child as int - 8 * f * parent as int;
        let r = (2 * num + parent as int) / (2 * parent as int);
        if r > 8 {
            8
        } else {
            r
        }
    }
}

/// The glyph of a partial cell filled `i` eighths, `i` in `0..=8`.
pub open spec fn bar_glyph(i: int) -> char {
    if i <= 0 {
        ' '
    } else if i == 1 {
        '▏'
    } else if i == 2 {
        '▎'
    } else if i == 3 {
        '▍'
    } else if i == 4 {
        '▌'
    } else if i == 5 {
        '▋'
    } else if i == 6 {
        '▊'
    } else if i == 7 {
        '▉'
    } else {
        '█'
    }
}

/// The bracketed proportion bar: eight cells, the filled ones as full blocks,
/// then one partial-cell glyph, then spaces. A zero parent draws an empty
/// bar.
pub open spec fn bar_spec(child: u64, parent: u64) -> Seq<char> {
    let f = bar_filled(child, parent);
    seq![' ', '['] + blocks(f) + seq![bar_glyph(bar_partial(child, parent))] + spaces(7 - f)
        + seq![']', ' ']
}

/// Appends the decimal digits of `n`.
fn push_decimal(s: &mut String, n: u64)
    ensures
        final(s)@ == old(s)@ + dec_spec(n as int),
    decreases n,
{
    if n >= 10 {
        push_decimal(s, n / 10);
    }
    let d = n % 10;
    push_digit(s, d);
    proof {
        if n >= 10 {
            assert(old(s)@ + dec_spec((n / 10) as int) + seq![digit_char(d as int)] =~= old(s)@
                + dec_spec(n as int));
        } else {
            assert(old(s)@ + seq![digit_char(n as int)] =~= old(s)@ + dec_spec(n as int));
        }
    }
}

/// Appends one decimal digit.
fn push_digit(s: &mut String, d: u64)
    requires
        d < 10,
    ensures
        final(s)@ == old(s)@ + seq![digit_char(d as int)],
{
    proof {
        reveal_strlit("0");
        reveal_strlit("1");
        reveal_strlit("2");
        reveal_strlit("3");
        reveal_strlit("4");
        reveal_strlit("5");
        reveal_strlit("6");
        reveal_strlit("7");
        reveal_strlit("8");
        reveal_strlit("9");
    }
    if d == 0 {
        s.append("0");
    } else if d == 1 {
        s.append("1");
    } else if d == 2 {
        s.append("2");
    } else if d == 3 {
        s.append("3");
    } else if d == 4 {
        s.append("4");
    } else if d == 5 {
        s.append("5");
    } else if d == 6 {
        s.append("6");
    } else if d == 7 {
        s.append("7");
    } else if d == 8 {
        s.append("8");
    } else {
        s.append("9");
    }
    proof {
        assert(final(s)@ =~= old(s)@ + seq![digit_char(d as int)]);
    }
}

/// Appends `k` spaces.
#[verifier::loop_isolation(false)]
fn push_spaces(s: &mut String, k: usize)
    ensures
        final(s)@ == old(s)@ + spaces(k as int),
{
    proof {
        reveal_strlit(" ");
    }
    let mut i: usize = 0;
    while i < k
        invariant
            0 <= i <= k,
            s@ == old(s)@ + spaces(i as int),
        decreases k - i,
    {
        s.append(" ");
        proof {
            assert(old(s)@ + spaces(i as int) + " "@ =~= old(s)@ + spaces(i + 1));
        }
        i = i + 1;
    }
}

/// Appends `k` full blocks.
#[verifier::loop_isolation(false)]
fn push_blocks(s: &mut String, k: usize)
    ensures
        final(s)@ == old(s)@ + blocks(k as int),
{
    proof {
        reveal_strlit("█");
    }
    let mut i: usize = 0;
    while i < k
        invariant
            0 <= i <= k,
            s@ == old(s)@ + blocks(i as int),
        decreases k - i,
    {
        s.append("█");
        proof {
            assert(old(s)@ + blocks(i as int) + "█"@ =~= old(s)@ + blocks(i + 1));
        }
        i = i + 1;
    }
}

/// The number of digits `dec_spec` writes.
fn count_decimal(n: u64) -> (r: usize)
    ensures
        r == dec_spec(n as int).len(),
        r >= 1,
    decreases n,
{
    if n < 10 {
        1
    } else {
        let rest = count_decimal(n / 10);
        proof {
            assert(dec_spec(n as int).len() == dec_spec((n / 10) as int).len() + 1);
            assert(dec_spec((n / 10) as int).len() <= 19) by {
                reveal_with_fuel(pow10, 20);
                lemma_dec_len_le((n / 10) as int, 19);
            }
        }
        rest + 1
    }
}

/// Numbers below `10^k` take at most `k` digits.
proof fn lemma_dec_len_le(n: int, k: int)
    requires
        0 <= n,
        1 <= k,
        n < pow10(k),
    ensures
        dec_spec(n).len() <= k,
    decreases k,
{
    if n >= 10 {
        assert(n / 10 < pow10(k - 1)) by {
            vstd::arithmetic::div_mod::lemma_multiply_divide_lt(n, 10, pow10(k - 1));
        }
        lemma_dec_len_le(n / 10, k - 1);
    }
}

/// 10 to the `k`th power.
pub open spec fn pow10(k: int) -> int
    decreases k,
{
    if k <= 0 {
        1
    } else {
        10 * pow10(k - 1)
    }
}

/// The scale `pow1024(exp_of(n))` brackets `n` for `n >= 1024`.
proof fn lemma_exp_of(n: int)
    requires
        n >= 0,
    ensures
        pow1024(exp_of(n)) >= 1,
        pow1024(exp_of(n)) <= n || n < 1024,
        n < 1024 * pow1024(exp_of(n)),
        n >= 1024 ==> exp_of(n) >= 1,
    decreases n,
{
    if n >= 1024 {
        lemma_exp_of(n / 1024);
    }
}

/// The pretty text of a byte count, and its length in characters.
fn pretty_with_len(bytes: u64) -> (r: (String, usize))
    ensures
        r.0@ == pretty_spec(bytes),
        r.1 == pretty_spec(bytes).len(),
        1 <= r.1 <= 8,
{
    let mut s = String::new();
    if bytes < 1024 {
        push_decimal(&mut s, bytes);
        let n = count_decimal(bytes);
        proof {
            reveal_with_fuel(pow10, 5);
            lemma_dec_len_le(bytes as int, 4);
            assert(s@ =~= pretty_spec(bytes));
        }
        (s, n)
    } else {
        let mut e: usize = 0;
        let mut p: u64 = 1;
        while bytes / p >= 1024
            invariant
                bytes >= 1024,
                1 <= p <= bytes,
                p as int == pow1024(e as int),
                e == 0 ==> p == 1,
                e <= 6,
            decreases bytes as int - p as int,
        {
            proof {
                vstd::arithmetic::div_mod::lemma_remainder_lower(bytes as int, p as int);
                assert((bytes as int / p as int) * p as int >= 1024 * p as int)
                    by (nonlinear_arith)
                    requires
                        bytes as int / p as int >= 1024,
                        p as int >= 1,
                ;
                assert(p as int * 1024 <= bytes as int);
                if e == 6 {
                    reveal_with_fuel(pow1024, 8);
                    assert(false);
                }
            }
            p = p * 1024;
            e = e + 1;
        }
        proof {
            if e == 0 {
                assert(bytes / 1 == bytes);
                assert(false);
            }
            lemma_exp_rounds(bytes as int, e as int);
        }
        let t128: u128 = (10 * bytes as u128 + (p / 2) as u128) / p as u128;
        proof {
            lemma_tenths_bound(bytes as int, e as int);
        }
        let t = t128 as u64;
        push_decimal(&mut s, t / 10);
        proof {
            reveal_strlit(".");
        }
        s.append(".");
        push_digit(&mut s, t % 10);
        push_unit(&mut s, e);
        let n = count_decimal(t / 10);
        proof {
            assert(t as int == tenths_of(bytes as int));
            assert(s@ =~= pretty_spec(bytes));
            assert(t < 10250);
            reveal_with_fuel(pow10, 5);
            lemma_dec_len_le((t / 10) as int, 4);
        }
        (s, n + 4)
    }
}

/// Appends the unit suffix for exponent `e`.
fn push_unit(s: &mut String, e: usize)
    requires
        1 <= e,
    ensures
        final(s)@ == old(s)@ + unit_chars(e as int),
{
    proof {
        reveal_strlit("kB");
        reveal_strlit("MB");
        reveal_strlit("GB");
        reveal_strlit("TB");
        reveal_strlit("PB");
        reveal_strlit("EB");
    }
    if e == 1 {
        s.append("kB");
    } else if e == 2 {
        s.append("MB");
    } else if e == 3 {
        s.append("GB");
    } else if e == 4 {
        s.append("TB");
    } else if e == 5 {
        s.append("PB");
    } else {
        s.append("EB");
    }
    proof {
        assert(final(s)@ =~= old(s)@ + unit_chars(e as int));
    }
}

/// `pow1024` stays within `u64` for small exponents.
proof fn lemma_pow1024_le(e: int)
    requires
        0 <= e <= 7,
    ensures
        pow1024(e) >= 1,
    decreases e,
{
    if e > 0 {
        lemma_pow1024_le(e - 1);
    }
}

/// When the scale loop stops, `e` is the exponent of `n`.
proof fn lemma_exp_rounds(n: int, e: int)
    requires
        0 <= e,
        pow1024(e) >= 1,
        pow1024(e) <= n,
        n / pow1024(e) < 1024,
    ensures
        exp_of(n) == e,
    decreases e,
{
    if e == 0 {
        if n >= 1024 {
            assert(false);
        }
    } else {
        assert(pow1024(e) == 1024 * pow1024(e - 1));
        assert(pow1024(e - 1) >= 1) by {
            if pow1024(e - 1) < 1 {
                assert(pow1024(e) < 1024);
            }
        }
        assert(n >= 1024);
        assert((n / 1024) / pow1024(e - 1) == n / pow1024(e)) by {
            vstd::arithmetic::div_mod::lemma_div_denominator(n, 1024, pow1024(e - 1));
        }
        assert(pow1024(e - 1) <= n / 1024) by {
            vstd::arithmetic::div_mod::lemma_div_is_ordered(1024 * pow1024(e - 1), n, 1024);
            vstd::arithmetic::div_mod::lemma_div_multiples_vanish(pow1024(e - 1), 1024);
        }
        lemma_exp_rounds(n / 1024, e - 1);
    }
}

/// The rounded tenths stay below 10250, so the whole part has at most four
/// digits.
proof fn lemma_tenths_bound(n: int, e: int)
    requires
        n >= 1024,
        exp_of(n) == e,
    ensures
        0 <= tenths_of(n) < 10250,
        10 * n + pow1024(e) / 2 >= 0,
        tenths_of(n) == (10 * n + pow1024(e) / 2) / pow1024(e),
{
    lemma_exp_of(n);
    let p = pow1024(e);
    assert(n < 1024 * p);
    assert(10 * n + p / 2 < 10240 * p + p);
    assert((10 * n + p / 2) / p < 10241) by {
        assert(10 * n + p / 2 < p * 10241) by (nonlinear_arith)
            requires
                n < 1024 * p,
                p >= 1,
        ;
        vstd::arithmetic::div_mod::lemma_multiply_divide_lt(10 * n + p / 2, p, 10241);
    }
    assert((10 * n + p / 2) / p >= 0) by {
        vstd::arithmetic::div_mod::lemma_div_pos_is_pos(10 * n + p / 2, p);
    }
}

/// Renders a byte count as human-readable text: plain digits below 1024, one
/// fractional digit and a binary-multiple unit above.
pub fn prettify_bytes(bytes: &u64) -> (r: String)
    ensures
        r@ == pretty_spec(*bytes),
{
    let (s, _) = pretty_with_len(*bytes);
    s
}

/// Renders a byte count right-aligned in eight columns.
pub fn pad_and_prettify_bytes(bytes: &u64) -> (r: String)
    ensures
        r@ == padded_spec(*bytes),
{
    let (pretty, n) = pretty_with_len(*bytes);
    let mut s = String::new();
    push_spaces(&mut s, 8 - n);
    s.append(pretty.as_str());
    proof {
        assert(s@ =~= padded_spec(*bytes));
    }
    s
}

/// Renders the proportion of `child_bytes` in `parent_bytes` as a bracketed
/// bar of eight cells with one partial-cell glyph.
pub fn size_bar(child_bytes: &u64, parent_bytes: &u64) -> (r: String)
    ensures
        r@ == bar_spec(*child_bytes, *parent_bytes),
{
    let c = *child_bytes;
    let p = *parent_bytes;
    let mut s = String::new();
    proof {
        reveal_strlit(" [");
        reveal_strlit("] ");
    }
    s.append(" [");
    let (filled, part): (usize, usize) = if p == 0 {
        (0, 0)
    } else {
        let f_raw = 8 * c as u128 / p as u128;
        let f: u128 = if f_raw > 7 {
            7
        } else {
            f_raw
        };
        proof {
            vstd::arithmetic::div_mod::lemma_remainder_lower(8 * c as int, p as int);
            assert(f as int * p as int <= (8 * c as int / p as int) * p as int)
                by (nonlinear_arith)
                requires
                    0 <= f as int <= 8 * c as int / p as int,
                    p as int >= 1,
            ;
            assert(f as int * p as int <= 8 * c as int);
            assert(8 * f as int * p as int <= 64 * c as int) by (nonlinear_arith)
                requires
                    f as int * p as int <= 8 * c as int,
            ;
        }
        let num = 64 * c as u128 - 8 * f * p as u128;
        let r_raw = (2 * num + p as u128) / (2 * p as u128);
        let r: u128 = if r_raw > 8 {
            8
        } else {
            r_raw
        };
        proof {
            assert(f as int == bar_filled(c, p));
            assert(r as int == bar_partial(c, p));
        }
        (f as usize, r as usize)
    };
    push_blocks(&mut s, filled);
    push_bar_glyph(&mut s, part);
    push_spaces(&mut s, 7 - filled);
    s.append("] ");
    proof {
        assert(s@ =~= bar_spec(c, p));
    }
    s
}

/// Appends the partial-cell glyph for `i` eighths.
fn push_bar_glyph(s: &mut String, i: usize)
    requires
        i <= 8,
    ensures
        final(s)@ == old(s)@ + seq![bar_glyph(i as int)],
{
    proof {
        reveal_strlit(" ");
        reveal_strlit("▏");
        reveal_strlit("▎");
        reveal_strlit("▍");
        reveal_strlit("▌");
        reveal_strlit("▋");
        reveal_strlit("▊");
        reveal_strlit("▉");
        reveal_strlit("█");
    }
    if i == 0 {
        s.append(" ");
    } else if i == 1 {
        s.append("▏");
    } else if i == 2 {
        s.append("▎");
    } else if i == 3 {
        s.append("▍");
    } else if i == 4 {
        s.append("▌");
    } else if i == 5 {
        s.append("▋");
    } else if i == 6 {
        s.append("▊");
    } else if i == 7 {
        s.append("▉");
    } else {
        s.append("█");
    }
    proof {
        assert(final(s)@ =~= old(s)@ + seq![bar_glyph(i as int)]);
    }
}

} // verus!
