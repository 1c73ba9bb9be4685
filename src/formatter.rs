use vstd::prelude::*;

verus! {

/// Nanoseconds in one second, one millisecond and one microsecond.
pub const NANOS_PER_SEC: u64 = 1_000_000_000;
pub const NANOS_PER_MILLI: u64 = 1_000_000;
pub const NANOS_PER_MICRO: u64 = 1_000;

/// The ASCII digit for `d < 10`.
pub open spec fn digit_char(d: nat) -> char {
    if d == 0 { '0' }
    else if d == 1 { '1' }
    else if d == 2 { '2' }
    else if d == 3 { '3' }
    else if d == 4 { '4' }
    else if d == 5 { '5' }
    else if d == 6 { '6' }
    else if d == 7 { '7' }
    else if d == 8 { '8' }
    else { '9' }
}

/// Decimal notation of `n`, without leading zeros.
pub open spec fn decimal(n: nat) -> Seq<char>
    decreases n,
{
    if n < 10 {
        seq![digit_char(n)]
    } else {
        decimal(n / 10).push(digit_char(n % 10))
    }
}

/// `value / unit`, rounded half up to hundredths, as a count of hundredths.
pub open spec fn hundredths(value: nat, unit: nat) -> nat
    recommends
        unit > 0,
{
    (value * 100 + unit / 2) / unit
}

/// Fixed-point notation with two decimals of `h` hundredths: `"12.05"`.
pub open spec fn fixed2(h: nat) -> Seq<char> {
    decimal(h / 100) + seq!['.', digit_char((h % 100) / 10), digit_char(h % 10)]
}

/// `value / unit` with two decimals, followed by `suffix`.
pub open spec fn scaled_text(value: nat, unit: nat, suffix: Seq<char>) -> Seq<char>
    recommends
        unit > 0,
{
    fixed2(hundredths(value, unit)) + suffix
}

/// A duration in nanoseconds in the largest unit that it reaches:
/// seconds, milliseconds, microseconds or nanoseconds.
pub open spec fn time_text(nanos: nat) -> Seq<char> {
    if nanos >= NANOS_PER_SEC {
        scaled_text(nanos, NANOS_PER_SEC as nat, "s"@)
    } else if nanos >= NANOS_PER_MILLI {
        scaled_text(nanos, NANOS_PER_MILLI as nat, "ms"@)
    } else if nanos >= NANOS_PER_MICRO {
        scaled_text(nanos, NANOS_PER_MICRO as nat, "\u{3bc}s"@)
    } else {
        scaled_text(nanos, 1, "ns"@)
    }
}

/// Relies on `u128::to_string` (through `Display`): the decimal notation of `n`.
#[verifier::external_body]
fn u128_text(n: u128) -> (r: String)
    ensures
        r@ == decimal(n as nat),
{
    n.to_string()
}

/// The decimal notation of a count.
pub fn format_count(n: u64) -> (r: String)
    ensures
        r@ == decimal(n as nat),
{
    u128_text(n as u128)
}

/// The text of `d` for a single digit `d`.
fn digit_text(d: u64) -> (r: &'static str)
    requires
        d < 10,
    ensures
        r@ == seq![digit_char(d as nat)],
{
    proof {
        reveal_strlit("0");
        reveal_strlit("1");
        reveal_strlit("2");
        reveal_strlit("3");
        reveal_strlit("4");
        reveal_strlit("5");
        reveal_strlit("6");
        reveal_strlit("7");
        reveal_strlit("8");
        reveal_strlit("9");
    }
    let r = if d == 0 { "0" }
    else if d == 1 { "1" }
    else if d == 2 { "2" }
    else if d == 3 { "3" }
    else if d == 4 { "4" }
    else if d == 5 { "5" }
    else if d == 6 { "6" }
    else if d == 7 { "7" }
    else if d == 8 { "8" }
    else { "9" };
    assert(r@ =~= seq![digit_char(d as nat)]);
    r
}

/// Writes `value / unit` with two decimals (rounded half up), then `suffix`.
pub fn format_scaled(value: u64, unit: u64, suffix: &str) -> (r: String)
    requires
        unit > 0,
    ensures
        r@ == scaled_text(value as nat, unit as nat, suffix@),
{
    let wide: u128 = (value as u128) * 100 + (unit as u128) / 2;
    let h: u128 = wide / (unit as u128);
    let mut s = format_fixed2(h);
    s.append(suffix);
    s
}

/// Writes `h` hundredths with two decimals: `1205` gives `"12.05"`.
pub fn format_fixed2(h: u128) -> (r: String)
    ensures
        r@ == fixed2(h as nat),
{
    let frac: u64 = (h % 100) as u64;
    let mut s = u128_text(h / 100);
    s.append(".");
    s.append(digit_text(frac / 10));
    s.append(digit_text(frac % 10));
    proof {
        reveal_strlit(".");
    }
    assert(s@ =~= fixed2(h as nat));
    s
}

/// Writes a duration given in nanoseconds in the largest unit that it
/// reaches, with two decimals: `"1.50s"`, `"12.00ms"`, `"3.25\u{3bc}s"`, `"840.00ns"`.
pub fn format_time(nanos: u64) -> (r: String)
    ensures
        r@ == time_text(nanos as nat),
{
    if nanos >= NANOS_PER_SEC {
        format_scaled(nanos, NANOS_PER_SEC, "s")
    } else if nanos >= NANOS_PER_MILLI {
        format_scaled(nanos, NANOS_PER_MILLI, "ms")
    } else if nanos >= NANOS_PER_MICRO {
        format_scaled(nanos, NANOS_PER_MICRO, "\u{3bc}s")
    } else {
        format_scaled(nanos, 1, "ns")
    }
}

} // verus!
