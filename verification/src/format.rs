//! Text shown for memory and uptime, computed from integer counters.
use vstd::prelude::*;

use vstd::arithmetic::power2::{
    lemma2_to64, lemma2_to64_rest, lemma_pow2_adds, lemma_pow2_pos, lemma_pow2_strictly_increases,
    lemma_pow2_unfold, pow2,
};

use vstd::arithmetic::div_mod::{
    lemma_div_is_ordered, lemma_fundamental_div_mod, lemma_fundamental_div_mod_converse,
    lemma_mod_pos_bound,
};

use crate::text::{append_str, decimal, digit_char, push_decimal};

verus! {

// ---------------------------------------------------------------- memory

/// `n / d` rounded to the nearest whole number; exactly halfway goes to
/// the even one.
pub open spec fn round_half_even(n: nat, d: nat) -> nat {
    let q = n / d;
    let r = n % d;
    if r * 2 > d || (r * 2 == d && q % 2 == 1) {
        q + 1
    } else {
        q
    }
}

/// How many low bits of `v` a double cannot hold (its significand has 53
/// bits): the least `k`, from `k` on, with `v < 2^53 * 2^k` (at most 11, as
/// `v < 2^64`).
pub open spec fn dropped_bits_from(v: nat, k: nat) -> nat
    decreases 11 - k,
{
    if k >= 11 || v < 0x20_0000_0000_0000 * pow2(k) {
        k
    } else {
        dropped_bits_from(v, k + 1)
    }
}

/// The value of `v as f64`: `v` rounded to 53 significant bits, halfway
/// to an even significand.
pub open spec fn as_f64(v: nat) -> nat {
    let p = pow2(dropped_bits_from(v, 0));
    round_half_even(v, p) * p
}

/// The scale `2^s` that brings `x / 10^6` into the range of a 53-bit
/// significand: the least `s`, from `s` on, with `x * 2^s >= 2^52 * 10^6`.
pub open spec fn quotient_shift_from(x: nat, s: nat) -> nat
    decreases 80 - s,
{
    if s >= 80 || x * pow2(s) >= 0x10_0000_0000_0000 * 1_000_000 {
        s
    } else {
        quotient_shift_from(x, s + 1)
    }
}

/// `v` kilobytes in gigabytes as `format!("{:.1}", v as f64 / 1_000_000.0)`
/// prints them, in tenths: the double nearest `(v as f64) / 10^6` is
/// `m / 2^s` (its significand `m` rounded halfway to even), and printing
/// with one decimal rounds that exact value to tenths, halfway to even.
pub open spec fn mem_tenths(v: nat) -> nat {
    let x = as_f64(v);
    if x == 0 {
        0
    } else {
        let s = quotient_shift_from(x, 0);
        let m = round_half_even(x * pow2(s), 1_000_000);
        round_half_even(m * 10, pow2(s))
    }
}

fn round_half_even_exec(n: u128, d: u128) -> (r: u128)
    requires
        d > 0,
        n < 0x8000_0000_0000_0000_0000_0000_0000_0000,
    ensures
        r == round_half_even(n as nat, d as nat),
        r <= n / d + 1,
{
    let q = n / d;
    let r = n % d;
    if r > d - r || (r == d - r && q % 2 == 1) {
        q + 1
    } else {
        q
    }
}

/// `mem_tenths(v)`, computed.
fn mem_tenths_exec(v: u64) -> (t: u64)
    ensures
        t == mem_tenths(v as nat),
{
    proof {
        lemma2_to64();
        lemma2_to64_rest();
    }
    let vv = v as u128;
    let mut k: u32 = 0;
    let mut p: u128 = 1;
    while k < 11 && vv >= 0x20_0000_0000_0000u128 * p
        invariant
            k <= 11,
            vv == v as u128,
            p == pow2(k as nat),
            1 <= p <= 2048,
            pow2(11) == 2048,
            dropped_bits_from(v as nat, 0) == dropped_bits_from(v as nat, k as nat),
        decreases 11 - k,
    {
        proof {
            lemma_pow2_unfold((k + 1) as nat);
            if k + 1 < 11 {
                lemma_pow2_strictly_increases((k + 1) as nat, 11);
            }
        }
        p = p * 2;
        k = k + 1;
    }
    assert(dropped_bits_from(v as nat, k as nat) == k);
    let q = round_half_even_exec(vv, p);
    proof {
        vstd::arithmetic::div_mod::lemma_fundamental_div_mod(vv as int, p as int);
        assert(q * p <= vv + p) by (nonlinear_arith)
            requires
                q <= vv / p + 1,
                vv == p * (vv / p) + vv % p,
                vv % p >= 0,
                p > 0,
        ;
    }
    let x: u128 = q * p;
    assert(x == as_f64(v as nat));
    if x == 0 {
        return 0;
    }
    let mut s: u32 = 0;
    let mut p2: u128 = 1;
    while s < 80 && x * p2 < 0x10_0000_0000_0000u128 * 1_000_000
        invariant
            s <= 80,
            x >= 1,
            x <= 0x1_0000_0000_0000_0800,
            p2 == pow2(s as nat),
            1 <= p2,
            x * p2 < 0x400_0000_0000_0000_0000,
            quotient_shift_from(x as nat, 0) == quotient_shift_from(x as nat, s as nat),
        decreases 80 - s,
    {
        proof {
            lemma_pow2_unfold((s + 1) as nat);
            assert(x * (p2 * 2) == (x * p2) * 2) by (nonlinear_arith);
            assert(p2 <= x * p2) by (nonlinear_arith)
                requires
                    x >= 1,
            ;
        }
        p2 = p2 * 2;
        s = s + 1;
    }
    assert(quotient_shift_from(x as nat, s as nat) == s);
    let xp = x * p2;
    proof {
        vstd::arithmetic::div_mod::lemma_fundamental_div_mod(xp as int, 1_000_000);
        vstd::arithmetic::div_mod::lemma_mod_pos_bound(xp as int, 1_000_000);
    }
    assert(xp / 1_000_000 < 0x80_0000_0000_0000);
    let m = round_half_even_exec(xp, 1_000_000);
    proof {
        let mm: int = m * 10;
        let pp: int = p2 as int;
        assert(mm / pp <= mm) by (nonlinear_arith)
            requires
                pp >= 1,
                mm >= 0,
        ;
    }
    let t = round_half_even_exec(m * 10, p2);
    t as u64
}

// ---------------------------------------------------------------- rounding lemmas

proof fn lemma_rhe_within(n: nat, d: nat)
    requires
        d > 0,
    ensures
        n / d <= round_half_even(n, d) <= n / d + 1,
        n == d * (n / d) + n % d,
        0 <= n % d < d,
{
    lemma_fundamental_div_mod(n as int, d as int);
    lemma_mod_pos_bound(n as int, d as int);
}

proof fn lemma_rhe_monotone(n1: nat, n2: nat, d: nat)
    requires
        d > 0,
        n1 <= n2,
    ensures
        round_half_even(n1, d) <= round_half_even(n2, d),
{
    lemma_rhe_within(n1, d);
    lemma_rhe_within(n2, d);
    lemma_div_is_ordered(n1 as int, n2 as int, d as int);
    if n1 / d == n2 / d {
        assert(n1 % d <= n2 % d);
    }
}

proof fn lemma_rhe_at_most(n: nat, d: nat, l: nat)
    requires
        d > 0,
        n < l * d,
    ensures
        round_half_even(n, d) <= l,
{
    lemma_rhe_within(n, d);
    let q = n / d;
    assert(q < l) by (nonlinear_arith)
        requires
            n == d * q + n % d,
            n % d >= 0,
            n < l * d,
            d > 0,
    ;
}

proof fn lemma_rhe_at_least(n: nat, d: nat, l: nat)
    requires
        d > 0,
        n >= l * d,
    ensures
        round_half_even(n, d) >= l,
{
    lemma_rhe_within(n, d);
    let q = n / d;
    assert(q >= l) by (nonlinear_arith)
        requires
            n == d * q + n % d,
            n % d < d,
            n >= l * d,
            d > 0,
    ;
}

proof fn lemma_rhe_scale(n: nat, d: nat, c: nat)
    requires
        d > 0,
        c > 0,
    ensures
        round_half_even(n * c, d * c) == round_half_even(n, d),
{
    lemma_rhe_within(n, d);
    let q = n / d;
    let r = n % d;
    assert(n * c == q * (d * c) + r * c && 0 <= r * c < d * c) by (nonlinear_arith)
        requires
            n == d * q + r,
            0 <= r < d,
            c > 0,
    ;
    lemma_fundamental_div_mod_converse((n * c) as int, (d * c) as int, q as int, (r * c) as int);
    assert((r * c * 2 > d * c) == (r * 2 > d)) by (nonlinear_arith)
        requires
            c > 0,
    ;
    assert((r * c * 2 == d * c) == (r * 2 == d)) by (nonlinear_arith)
        requires
            c > 0,
    ;
}

proof fn lemma_dropped_bits(v: nat, k: nat)
    requires
        k <= 11,
    ensures
        k <= dropped_bits_from(v, k) <= 11,
        dropped_bits_from(v, k) < 11 ==> v < 0x20_0000_0000_0000 * pow2(
            dropped_bits_from(v, k),
        ),
        dropped_bits_from(v, k) > k ==> v >= 0x20_0000_0000_0000 * pow2(
            (dropped_bits_from(v, k) - 1) as nat,
        ),
    decreases 11 - k,
{
    if !(k >= 11 || v < 0x20_0000_0000_0000 * pow2(k)) {
        lemma_dropped_bits(v, k + 1);
    }
}

proof fn lemma_quotient_shift(x: nat, s: nat)
    requires
        s <= 80,
    ensures
        s <= quotient_shift_from(x, s) <= 80,
        quotient_shift_from(x, s) < 80 ==> x * pow2(quotient_shift_from(x, s))
            >= 0x10_0000_0000_0000 * 1_000_000,
        quotient_shift_from(x, s) > s ==> x * pow2((quotient_shift_from(x, s) - 1) as nat)
            < 0x10_0000_0000_0000 * 1_000_000,
    decreases 80 - s,
{
    if !(s >= 80 || x * pow2(s) >= 0x10_0000_0000_0000 * 1_000_000) {
        lemma_quotient_shift(x, s + 1);
    }
}

/// For `x` in the range of `v as f64` (at least 1, at most 2^64): the shift
/// is positive, puts `x * 2^s` in `[2^52 * 10^6, 2^53 * 10^6)`, and the
/// significand lies in `[2^52, 2^53]`.
proof fn lemma_quotient_parts(x: nat)
    requires
        1 <= x <= 0x1_0000_0000_0000_0000,
    ensures
        ({
            let s = quotient_shift_from(x, 0);
            let m = round_half_even(x * pow2(s), 1_000_000);
            &&& 1 <= s < 80
            &&& x * pow2(s) >= 0x10_0000_0000_0000 * 1_000_000
            &&& x * pow2((s - 1) as nat) < 0x10_0000_0000_0000 * 1_000_000
            &&& pow2(s) == 2 * pow2((s - 1) as nat)
            &&& 0x10_0000_0000_0000 <= m <= 0x20_0000_0000_0000
        }),
{
    lemma2_to64();
    lemma2_to64_rest();
    lemma_quotient_shift(x, 0);
    let s = quotient_shift_from(x, 0);
    assert(s != 0);
    if s == 80 {
        lemma_pow2_adds(64, 15);
        assert(pow2(79) == 0x1_0000_0000_0000_0000 * pow2(15));
        assert(x * pow2(79) >= pow2(79)) by (nonlinear_arith)
            requires
                x >= 1,
        ;
    }
    lemma_pow2_unfold(s);
    let xs = x * pow2(s);
    assert(xs == 2 * (x * pow2((s - 1) as nat))) by (nonlinear_arith)
        requires
            pow2(s) == 2 * pow2((s - 1) as nat),
            xs == x * pow2(s),
    ;
    assert(xs < 0x20_0000_0000_0000 * 1_000_000);
    lemma_rhe_at_most(xs, 1_000_000, 0x20_0000_0000_0000);
    lemma_rhe_at_least(xs, 1_000_000, 0x10_0000_0000_0000);
}

/// The printed memory figure never goes down as the figure goes up: for
/// `a <= b` kilobytes, the gigabytes shown for `a` are at most those shown
/// for `b`.
pub proof fn mem_figure_is_monotone(a: u64, b: u64)
    requires
        a <= b,
    ensures
        mem_tenths(a as nat) <= mem_tenths(b as nat),
{
    lemma2_to64();
    lemma2_to64_rest();
    let c: nat = 0x20_0000_0000_0000;
    let ka = dropped_bits_from(a as nat, 0);
    let kb = dropped_bits_from(b as nat, 0);
    lemma_dropped_bits(a as nat, 0);
    lemma_dropped_bits(b as nat, 0);
    assert(c * pow2(11) == 0x1_0000_0000_0000_0000);
    let pa = pow2(ka);
    let pb = pow2(kb);
    lemma_pow2_pos(ka);
    lemma_pow2_pos(kb);
    if ka < 11 {
        lemma_pow2_strictly_increases(ka, 11);
    }
    if kb < 11 {
        lemma_pow2_strictly_increases(kb, 11);
    }
    assert(a < c * pa);
    assert(b < c * pb);
    // the two values as doubles
    let xa = as_f64(a as nat);
    let xb = as_f64(b as nat);
    if ka > kb {
        if ka - 1 > kb {
            lemma_pow2_strictly_increases(kb, (ka - 1) as nat);
        }
        assert(c * pow2((ka - 1) as nat) >= c * pb) by (nonlinear_arith)
            requires
                pow2((ka - 1) as nat) >= pb,
        ;
        assert(false);
    }
    lemma_rhe_at_most(a as nat, pa, c);
    assert(xa <= c * pa) by (nonlinear_arith)
        requires
            xa == round_half_even(a as nat, pa) * pa,
            round_half_even(a as nat, pa) <= c,
            pa > 0,
    ;
    if ka == kb {
        lemma_rhe_monotone(a as nat, b as nat, pa);
        assert(xa <= xb) by (nonlinear_arith)
            requires
                xa == round_half_even(a as nat, pa) * pa,
                xb == round_half_even(b as nat, pa) * pa,
                round_half_even(a as nat, pa) <= round_half_even(b as nat, pa),
                pa > 0,
        ;
    } else {
        let h = pow2((kb - 1) as nat);
        lemma_pow2_unfold(kb);
        assert(b >= (c / 2) * pb);
        lemma_rhe_at_least(b as nat, pb, c / 2);
        if ka < (kb - 1) as nat {
            lemma_pow2_strictly_increases(ka, (kb - 1) as nat);
        }
        assert(xb >= (c / 2) * pb) by (nonlinear_arith)
            requires
                xb == round_half_even(b as nat, pb) * pb,
                round_half_even(b as nat, pb) >= c / 2,
                pb > 0,
        ;
        assert((c / 2) * pb >= c * pa) by (nonlinear_arith)
            requires
                pb == 2 * h,
                h >= pa,
                c == 0x20_0000_0000_0000,
        ;
    }
    assert(xa <= xb);
    assert(xb <= 0x1_0000_0000_0000_0000) by {
        if kb == ka {
            lemma_rhe_at_most(b as nat, pb, c);
            assert(xb <= c * pb) by (nonlinear_arith)
                requires
                    xb == round_half_even(b as nat, pb) * pb,
                    round_half_even(b as nat, pb) <= c,
                    pb > 0,
            ;
        } else {
            lemma_rhe_at_most(b as nat, pb, c);
            assert(xb <= c * pb) by (nonlinear_arith)
                requires
                    xb == round_half_even(b as nat, pb) * pb,
                    round_half_even(b as nat, pb) <= c,
                    pb > 0,
            ;
        }
        assert(c * pb <= c * pow2(11)) by (nonlinear_arith)
            requires
                pb <= pow2(11),
        ;
    }
    if xa == 0 {
        return;
    }
    lemma_quotient_parts(xa);
    lemma_quotient_parts(xb);
    let sa = quotient_shift_from(xa, 0);
    let sb = quotient_shift_from(xb, 0);
    let qa = pow2(sa);
    let qb = pow2(sb);
    let ma = round_half_even(xa * qa, 1_000_000);
    let mb = round_half_even(xb * qb, 1_000_000);
    if sa < sb {
        if sa < (sb - 1) as nat {
            lemma_pow2_strictly_increases(sa, (sb - 1) as nat);
        }
        assert(xb * pow2((sb - 1) as nat) >= xa * qa) by (nonlinear_arith)
            requires
                xb >= xa,
                pow2((sb - 1) as nat) >= qa,
                qa > 0,
        ;
        assert(false);
    }
    lemma_pow2_pos(sa);
    lemma_pow2_pos(sb);
    if sa == sb {
        assert(xa * qa <= xb * qa) by (nonlinear_arith)
            requires
                xa <= xb,
        ;
        lemma_rhe_monotone(xa * qa, xb * qa, 1_000_000);
        lemma_rhe_monotone(ma * 10, mb * 10, qa);
    } else {
        let e = (sa - sb) as nat;
        let cc = pow2(e);
        lemma_pow2_adds(sb, e);
        assert(qa == qb * cc);
        lemma_pow2_strictly_increases(0, e);
        lemma_rhe_scale(mb * 10, qb, cc);
        assert(ma * 10 <= mb * 10 * cc) by (nonlinear_arith)
            requires
                ma <= 0x20_0000_0000_0000,
                mb >= 0x10_0000_0000_0000,
                cc >= 2,
        ;
        assert(mb * 10 * cc == (mb * 10) * cc);
        assert(qb * cc == qa);
        lemma_rhe_monotone(ma * 10, mb * 10 * cc, qa);
    }
}

/// `tenths` written with one decimal: `2.5`, `8.0`, `10.0`.
pub open spec fn one_decimal(tenths: nat) -> Seq<char> {
    decimal(tenths / 10) + seq!['.', digit_char(tenths % 10)]
}

/// The memory title for `used` and `total` kilobytes: both in gigabytes
/// (a million kilobytes each) as a double, printed with one decimal.
pub open spec fn mem_title_spec(used: nat, total: nat) -> Seq<char> {
    "RAM "@ + one_decimal(mem_tenths(used)) + "G/"@ + one_decimal(mem_tenths(total)) + "G"@
}

fn push_one_decimal(out: &mut String, v: u64)
    ensures
        final(out)@ == old(out)@ + one_decimal(mem_tenths(v as nat)),
{
    let tenths = mem_tenths_exec(v);
    let ghost start = out@;
    push_decimal(out, tenths / 10);
    out.push('.');
    let d = (tenths % 10) as u8;
    let ch = (48u8 + d) as char;
    assert(ch == digit_char((tenths % 10) as nat));
    out.push(ch);
    assert(out@ =~= start + one_decimal(tenths as nat));
}

/// The memory title, as `RAM <used>G/<total>G` with one decimal each.
pub fn format_mem_title(used: u64, total: u64) -> (title: String)
    ensures
        title@ == mem_title_spec(used as nat, total as nat),
{
    let mut out = String::new();
    append_str(&mut out, "RAM ");
    push_one_decimal(&mut out, used);
    append_str(&mut out, "G/");
    push_one_decimal(&mut out, total);
    append_str(&mut out, "G");
    assert(out@ =~= mem_title_spec(used as nat, total as nat));
    out
}

// ---------------------------------------------------------------- uptime

/// Whole days in `t` seconds.
pub open spec fn days_of(t: nat) -> nat {
    t / 86400
}

/// Hours past the whole days.
pub open spec fn hours_of(t: nat) -> nat {
    (t % 86400) / 3600
}

/// Minutes past the whole hours.
pub open spec fn minutes_of(t: nat) -> nat {
    (t % 3600) / 60
}

/// Seconds past the whole minutes.
pub open spec fn seconds_of(t: nat) -> nat {
    t % 60
}

/// The uptime text for `t` seconds: days, hours, minutes and seconds,
/// leaving out the leading units that are zero (`1d 1h 1m 1s`, `2m 1s`, `59s`).
pub open spec fn uptime_spec(t: nat) -> Seq<char> {
    let d = days_of(t);
    let h = hours_of(t);
    let m = minutes_of(t);
    let s = seconds_of(t);
    let hms = decimal(h) + "h "@ + decimal(m) + "m "@ + decimal(s) + "s"@;
    if d > 0 {
        decimal(d) + "d "@ + hms
    } else if h > 0 {
        hms
    } else if m > 0 {
        decimal(m) + "m "@ + decimal(s) + "s"@
    } else {
        decimal(s) + "s"@
    }
}

/// The uptime text for a whole number of seconds.
pub fn format_uptime(total_seconds: u64) -> (text: String)
    ensures
        text@ == uptime_spec(total_seconds as nat),
{
    let days = total_seconds / 86400;
    let hours = (total_seconds % 86400) / 3600;
    let minutes = (total_seconds % 3600) / 60;
    let secs = total_seconds % 60;
    let mut out = String::new();
    if days > 0 {
        push_decimal(&mut out, days);
        append_str(&mut out, "d ");
    }
    if days > 0 || hours > 0 {
        push_decimal(&mut out, hours);
        append_str(&mut out, "h ");
    }
    if days > 0 || hours > 0 || minutes > 0 {
        push_decimal(&mut out, minutes);
        append_str(&mut out, "m ");
    }
    push_decimal(&mut out, secs);
    append_str(&mut out, "s");
    assert(out@ =~= uptime_spec(total_seconds as nat));
    out
}

/// The parts of the uptime text add up to the whole and each is below the
/// next unit: days, hours < 24, minutes < 60, seconds < 60.
pub proof fn uptime_parts_add_up(t: nat)
    ensures
        days_of(t) * 86400 + hours_of(t) * 3600 + minutes_of(t) * 60 + seconds_of(t) == t,
        hours_of(t) < 24,
        minutes_of(t) < 60,
        seconds_of(t) < 60,
{
    assert(days_of(t) * 86400 + hours_of(t) * 3600 + minutes_of(t) * 60 + seconds_of(t) == t)
        by (nonlinear_arith);
}

} // verus!
