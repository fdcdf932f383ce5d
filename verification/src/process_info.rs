use vstd::prelude::*;
use vstd::string::StringExecFns;
use crate::text::decimal;
use crate::text::digit;
use crate::text::digit_char;
use crate::text::push_char;
use crate::text::push_decimal;
use crate::text::numeral_value;
use crate::text::lemma_decimal_reads_back;
use crate::text::lemma_digit_value;

verus! {

/// The scheduling state of a process, as the operating system reports it.
#[derive(Clone, Copy, Debug, PartialEq, Eq)]
pub enum ProcessStatus {
    Idle,
    Run,
    Sleep,
    Stop,
    Zombie,
    Tracing,
    Dead,
    Wakekill,
    Waking,
    Parked,
    LockBlocked,
    UninterruptibleDiskSleep,
    Unknown(u32),
}

/// A lightweight snapshot of a running process.
pub struct ProcessSnapshot {
    pub pid: u32,
    pub name: String,
    /// The CPU usage percentage, held as the bit pattern of the `f32` the
    /// system reported (`f32::to_bits`). Usages are never negative, and for
    /// non-negative values a larger pattern is a larger usage.
    pub cpu_usage: u32,
    pub memory_bytes: u64,
    pub status: String,
    pub parent_pid: u32,
    pub start_time: u64,
}

impl Clone for ProcessSnapshot {
    fn clone(&self) -> (r: Self)
        ensures
            r == *self,
    {
        ProcessSnapshot {
            pid: self.pid,
            name: self.name.clone(),
            cpu_usage: self.cpu_usage,
            memory_bytes: self.memory_bytes,
            status: self.status.clone(),
            parent_pid: self.parent_pid,
            start_time: self.start_time,
        }
    }
}

/// The human-readable name of a status.
pub open spec fn status_text(status: ProcessStatus) -> Seq<char> {
    match status {
        ProcessStatus::Run => "running"@,
        ProcessStatus::Sleep => "sleeping"@,
        ProcessStatus::Idle => "idle"@,
        ProcessStatus::Stop => "stopped"@,
        ProcessStatus::Zombie => "zombie"@,
        ProcessStatus::Tracing => "tracing"@,
        ProcessStatus::Dead => "dead"@,
        ProcessStatus::Wakekill => "wake_kill"@,
        ProcessStatus::Waking => "waking"@,
        ProcessStatus::Parked => "parked"@,
        ProcessStatus::LockBlocked => "lock_blocked"@,
        ProcessStatus::UninterruptibleDiskSleep => "disk_sleep"@,
        ProcessStatus::Unknown(_) => "unknown"@,
    }
}

/// Convert a process status to a human-readable string.
pub fn status_to_string(status: ProcessStatus) -> (r: String)
    ensures
        r@ == status_text(status),
{
    let text = match status {
        ProcessStatus::Run => "running",
        ProcessStatus::Sleep => "sleeping",
        ProcessStatus::Idle => "idle",
        ProcessStatus::Stop => "stopped",
        ProcessStatus::Zombie => "zombie",
        ProcessStatus::Tracing => "tracing",
        ProcessStatus::Dead => "dead",
        ProcessStatus::Wakekill => "wake_kill",
        ProcessStatus::Waking => "waking",
        ProcessStatus::Parked => "parked",
        ProcessStatus::LockBlocked => "lock_blocked",
        ProcessStatus::UninterruptibleDiskSleep => "disk_sleep",
        ProcessStatus::Unknown(_) => "unknown",
    };
    String::from_str(text)
}

/// `n / d` rounded to the nearest integer, ties to the even one.
pub open spec fn round_half_even(n: nat, d: nat) -> nat {
    let q = n / d;
    let r = n % d;
    if 2 * r > d || (2 * r == d && q % 2 == 1) {
        q + 1
    } else {
        q
    }
}

/// The spacing of double-precision floating-point numbers around `x`: 1
/// below 2^53, doubling with each binary digit above.
pub open spec fn f64_spacing(x: nat) -> nat
    decreases x,
{
    if x < 0x20_0000_0000_0000 {
        1
    } else {
        2 * f64_spacing(x / 2)
    }
}

/// The double-precision floating-point number nearest to `x` (ties to even),
/// as an integer: what `x as f64` holds.
pub open spec fn nearest_f64(x: nat) -> nat {
    round_half_even(x, f64_spacing(x)) * f64_spacing(x)
}

/// `t / 10^places` written with exactly `places` decimals (one or two).
pub open spec fn fixed_text(t: nat, places: nat) -> Seq<char> {
    if places == 1 {
        decimal(t / 10).push('.').push(digit_char(t % 10))
    } else {
        decimal(t / 100).push('.').push(digit_char((t / 10) % 10)).push(digit_char(t % 10))
    }
}

/// The human-readable size of `bytes`: whole bytes below 1 KiB, then KB and
/// MB with one decimal, GB with two, each rounded to the nearest (ties to
/// even) from the size as a double-precision number.
pub open spec fn bytes_text(bytes: nat) -> Seq<char> {
    if bytes < 1024 {
        decimal(bytes) + " B"@
    } else if bytes < 1024 * 1024 {
        fixed_text(round_half_even(bytes * 10, 1024), 1) + " KB"@
    } else if bytes < 1024 * 1024 * 1024 {
        fixed_text(round_half_even(bytes * 10, 1024 * 1024), 1) + " MB"@
    } else {
        fixed_text(round_half_even(nearest_f64(bytes) * 100, 1024 * 1024 * 1024), 2) + " GB"@
    }
}

/// `t` is `n / d` rounded to the nearest integer, ties to the even one:
/// `t * d` lies within half of `d` of `n`, and only an even `t` lies exactly
/// half of `d` away.
pub open spec fn rounds_to(n: nat, d: nat, t: nat) -> bool {
    let e: int = n - d * t;
    &&& -d <= 2 * e <= d
    &&& (2 * e == d || 2 * e == -d) ==> t % 2 == 0
}

/// Rounding half to even gives the nearest integer to the quotient, and the
/// even one of two equally near.
pub proof fn lemma_round_half_even_nearest(n: nat, d: nat)
    requires
        d > 0,
    ensures
        rounds_to(n, d, round_half_even(n, d)),
        forall|t: nat| rounds_to(n, d, t) ==> t == round_half_even(n, d),
{
    let q = (n / d) as int;
    let r = (n % d) as int;
    vstd::arithmetic::div_mod::lemma_fundamental_div_mod(n as int, d as int);
    assert(n == d * q + r);
    assert(d * (q + 1) == d * q + d) by (nonlinear_arith);
    assert forall|t: nat| rounds_to(n, d, t) implies t == round_half_even(n, d) by {
        let e = n - d * t;
        assert(d * (q - t) == d * q - d * t) by (nonlinear_arith);
        if t < q {
            assert(d * (q - t) >= d) by (nonlinear_arith)
                requires
                    q - t >= 1,
                    d > 0,
            ;
        } else if t > q + 1 {
            assert(d * (t - q) >= 2 * d) by (nonlinear_arith)
                requires
                    t - q >= 2,
                    d > 0,
            ;
            assert(d * (t - q) == d * t - d * q) by (nonlinear_arith);
        }
    }
}

/// The size text of a byte count, by unit: whole bytes below 1024; below
/// 1024 * 1024 the size in KB (1024 bytes) rounded to one decimal; below
/// 1024 ^ 3 the size in MB (1024 ^ 2 bytes) to one decimal; above that the
/// size (as the nearest double) in GB (1024 ^ 3 bytes) to two decimals.
pub proof fn lemma_bytes_text_units(b: nat)
    ensures
        b < 1024 ==> bytes_text(b) == decimal(b) + " B"@,
        1024 <= b < 1024 * 1024 ==> exists|t: nat|
            bytes_text(b) == fixed_text(t, 1) + " KB"@ && #[trigger] rounds_to(10 * b, 1024, t),
        1024 * 1024 <= b < 1024 * 1024 * 1024 ==> exists|t: nat|
            bytes_text(b) == fixed_text(t, 1) + " MB"@ && #[trigger] rounds_to(
                10 * b,
                1024 * 1024,
                t,
            ),
        1024 * 1024 * 1024 <= b ==> exists|t: nat|
            bytes_text(b) == fixed_text(t, 2) + " GB"@ && #[trigger] rounds_to(
                100 * nearest_f64(b),
                1024 * 1024 * 1024,
                t,
            ),
{
    assert(b * 10 == 10 * b);
    assert(nearest_f64(b) * 100 == 100 * nearest_f64(b));
    lemma_round_half_even_nearest(10 * b, 1024);
    lemma_round_half_even_nearest(10 * b, 1024 * 1024);
    lemma_round_half_even_nearest(100 * nearest_f64(b), 1024 * 1024 * 1024);
    let k = round_half_even(10 * b, 1024);
    let m = round_half_even(10 * b, 1024 * 1024);
    let g = round_half_even(100 * nearest_f64(b), 1024 * 1024 * 1024);
    if 1024 <= b < 1024 * 1024 {
        assert(bytes_text(b) == fixed_text(k, 1) + " KB"@ && rounds_to(10 * b, 1024, k));
    }
    if 1024 * 1024 <= b < 1024 * 1024 * 1024 {
        assert(bytes_text(b) == fixed_text(m, 1) + " MB"@ && rounds_to(10 * b, 1024 * 1024, m));
    }
    if 1024 * 1024 * 1024 <= b {
        assert(bytes_text(b) == fixed_text(g, 2) + " GB"@ && rounds_to(
            100 * nearest_f64(b),
            1024 * 1024 * 1024,
            g,
        ));
    }
}

/// Every count below 2^53 is a double exactly.
pub proof fn lemma_nearest_f64_exact(x: nat)
    requires
        x < 0x20_0000_0000_0000,
    ensures
        nearest_f64(x) == x,
{
    assert(f64_spacing(x) == 1);
    lemma_round_half_even_nearest(x, 1);
    assert(rounds_to(x, 1, x));
}

/// A fixed-point text with `places` decimals is the whole part, a point and
/// exactly `places` digits, and read without the point it denotes `t`.
pub proof fn lemma_fixed_text_reads_back(t: nat, places: nat)
    requires
        places == 1 || places == 2,
    ensures
        fixed_text(t, places)[fixed_text(t, places).len() - 1 - places] == '.',
        numeral_value(
            fixed_text(t, places).take(fixed_text(t, places).len() - 1 - places) + fixed_text(
                t,
                places,
            ).skip(fixed_text(t, places).len() - places),
        ) == t,
        forall|i: int|
            0 <= i < fixed_text(t, places).len() && i != fixed_text(t, places).len() - 1 - places
                ==> '0' <= #[trigger] fixed_text(t, places)[i] <= '9',
{
    let f = fixed_text(t, places);
    let whole = if places == 1 {
        t / 10
    } else {
        t / 100
    };
    lemma_decimal_reads_back(whole);
    let w = decimal(whole);
    lemma_digit_value(t % 10);
    lemma_digit_value((t / 10) % 10);
    if places == 1 {
        let joined = w.push(digit_char(t % 10));
        assert(f.take(f.len() - 2) =~= w);
        assert(f.take(f.len() - 2) + f.skip(f.len() - 1) =~= joined);
        assert(joined.drop_last() =~= w);
        assert(numeral_value(joined) == 10 * (t / 10) + t % 10);
        assert forall|i: int| 0 <= i < f.len() && i != f.len() - 2 implies '0' <= #[trigger] f[i] <= '9' by {
            if i < w.len() {
                assert(f[i] == w[i]);
            }
        }
    } else {
        let joined = w.push(digit_char((t / 10) % 10)).push(digit_char(t % 10));
        assert(f.take(f.len() - 3) =~= w);
        assert(f.take(f.len() - 3) + f.skip(f.len() - 2) =~= joined);
        assert(joined.drop_last().drop_last() =~= w);
        assert(numeral_value(joined.drop_last()) == 10 * (t / 100) + (t / 10) % 10);
        assert(numeral_value(joined) == 10 * (10 * (t / 100) + (t / 10) % 10) + t % 10);
        assert(t == 100 * (t / 100) + 10 * ((t / 10) % 10) + t % 10);
        assert forall|i: int| 0 <= i < f.len() && i != f.len() - 3 implies '0' <= #[trigger] f[i] <= '9' by {
            if i < w.len() {
                assert(f[i] == w[i]);
            }
        }
    }
}

fn round_half_even_of(n: u128, d: u128) -> (r: u128)
    requires
        d > 0,
        n / d < u128::MAX,
    ensures
        r == round_half_even(n as nat, d as nat),
        r <= n / d + 1,
{
    let q = n / d;
    let rem = n % d;
    if rem > d - rem || (rem == d - rem && q % 2 == 1) {
        q + 1
    } else {
        q
    }
}

/// The spacing of doubles around `x`.
fn f64_spacing_of(x: u64) -> (u: u128)
    ensures
        u == f64_spacing(x as nat),
        1 <= u <= 0x1000,
{
    let mut u: u128 = 1;
    let mut y: u64 = x;
    while y >= 0x20_0000_0000_0000
        invariant
            f64_spacing(x as nat) == u * f64_spacing(y as nat),
            1 <= u <= 0x1000,
            u * y <= x,
        decreases y,
    {
        let ghost old_u = u;
        let ghost old_y = y;
        assert(old_u < 0x800) by (nonlinear_arith)
            requires
                old_u * old_y <= x,
                x < 0x1_0000_0000_0000_0000,
                old_y >= 0x20_0000_0000_0000,
        ;
        y = y / 2;
        u = u * 2;
        assert(f64_spacing(old_y as nat) == 2 * f64_spacing(y as nat));
        assert(f64_spacing(x as nat) == u * f64_spacing(y as nat)) by (nonlinear_arith)
            requires
                f64_spacing(x as nat) == old_u * f64_spacing(old_y as nat),
                f64_spacing(old_y as nat) == 2 * f64_spacing(y as nat),
                u == old_u * 2,
        ;
        assert(u * y <= x) by (nonlinear_arith)
            requires
                old_u * old_y <= x,
                2 * y <= old_y,
                u == old_u * 2,
                old_u >= 1,
        ;
    }
    assert(f64_spacing(y as nat) == 1);
    assert(f64_spacing(x as nat) == u) by (nonlinear_arith)
        requires
            f64_spacing(x as nat) == u * f64_spacing(y as nat),
            f64_spacing(y as nat) == 1,
    ;
    u
}

fn push_fixed(s: &mut String, t: u64, places: u64)
    requires
        places == 1 || places == 2,
    ensures
        final(s)@ == old(s)@ + fixed_text(t as nat, places as nat),
{
    if places == 1 {
        push_decimal(s, t / 10);
        push_char(s, '.');
        push_char(s, digit(t % 10));
    } else {
        push_decimal(s, t / 100);
        push_char(s, '.');
        push_char(s, digit((t / 10) % 10));
        push_char(s, digit(t % 10));
    }
}

/// Format bytes into a human-readable string (B, KB, MB, GB).
pub fn format_bytes(bytes: u64) -> (r: String)
    ensures
        r@ == bytes_text(bytes as nat),
{
    proof {
        reveal_strlit(" B");
        reveal_strlit(" KB");
        reveal_strlit(" MB");
        reveal_strlit(" GB");
    }
    let mut s = String::new();
    if bytes < 1024 {
        push_decimal(&mut s, bytes);
        s.append(" B");
    } else if bytes < 1024 * 1024 {
        let t = round_half_even_of(bytes as u128 * 10, 1024);
        push_fixed(&mut s, t as u64, 1);
        s.append(" KB");
    } else if bytes < 1024 * 1024 * 1024 {
        let t = round_half_even_of(bytes as u128 * 10, 1024 * 1024);
        push_fixed(&mut s, t as u64, 1);
        s.append(" MB");
    } else {
        let unit = f64_spacing_of(bytes);
        let q = round_half_even_of(bytes as u128, unit);
        proof {
            vstd::arithmetic::div_mod::lemma_fundamental_div_mod(bytes as int, unit as int);
            vstd::arithmetic::div_mod::lemma_mod_bound(bytes as int, unit as int);
        }
        assert(q * unit <= 0x1_0000_0000_0000_1000) by (nonlinear_arith)
            requires
                q <= (bytes as u128) / unit + 1,
                bytes as int == unit * ((bytes as int) / (unit as int)) + (bytes as int) % (unit as int),
                (bytes as int) % (unit as int) >= 0,
                bytes < 0x1_0000_0000_0000_0000,
                1 <= unit <= 0x1000,
        ;
        let nearest = q * unit;
        let t = round_half_even_of(nearest * 100, 1024 * 1024 * 1024);
        assert(t < 0x1_0000_0000_0000_0000);
        push_fixed(&mut s, t as u64, 2);
        s.append(" GB");
    }
    s
}

/// The seconds chrono can turn into a UTC date and time: from
/// -262143-01-01 00:00:00 to +262142-12-31 23:59:59.
pub open spec fn timestamp_in_range(secs: int) -> bool {
    -8_334_601_228_800 <= secs <= 8_210_266_876_799
}

/// The text that chrono writes for the UTC date and time `secs` seconds after
/// 1970-01-01 00:00:00, in the format `%Y-%m-%d %H:%M:%S`.
pub uninterp spec fn utc_datetime_text(secs: i64) -> Seq<char>;

/// `chrono::DateTime::from_timestamp(secs, 0)`, written with the format
/// `%Y-%m-%d %H:%M:%S`. Claimed: there is a time exactly for the seconds in
/// chrono's range, and its text is the named `utc_datetime_text(secs)`; the
/// calendar arithmetic behind the text is not restated.
#[verifier::external_body]
fn utc_datetime(secs: i64) -> (r: Option<String>)
    ensures
        r is Some <==> timestamp_in_range(secs as int),
        r matches Some(t) ==> t@ == utc_datetime_text(secs),
{
    match chrono::DateTime::from_timestamp(secs, 0) {
        Some(dt) => Some(dt.format("%Y-%m-%d %H:%M:%S").to_string()),
        None => None,
    }
}

/// The bits of `t` read as a signed 64-bit number.
pub open spec fn as_signed(t: u64) -> int {
    if t <= i64::MAX {
        t as int
    } else {
        t - 0x1_0000_0000_0000_0000
    }
}

/// The text shown for a start time: its UTC date and time when chrono can
/// represent it, "N/A" otherwise.
pub open spec fn start_time_text(start_time: u64) -> Seq<char> {
    let secs = as_signed(start_time);
    if timestamp_in_range(secs) {
        utc_datetime_text(secs as i64)
    } else {
        "N/A"@
    }
}

/// Format a start time (seconds since the Unix epoch, its bits read as a
/// signed number) as a readable UTC date, or "N/A".
pub fn format_start_time(start_time: u64) -> (r: String)
    ensures
        r@ == start_time_text(start_time),
{
    let secs: i64 = if start_time <= 0x7fff_ffff_ffff_ffff {
        start_time as i64
    } else {
        ((start_time - 0x8000_0000_0000_0000) as i64) + i64::MIN
    };
    assert(secs as int == as_signed(start_time));
    text_or_unavailable(utc_datetime(secs))
}

/// The given text, or "N/A" when there is none.
pub fn text_or_unavailable(text: Option<String>) -> (r: String)
    ensures
        r@ == match text {
            Some(t) => t@,
            None => "N/A"@,
        },
{
    match text {
        Some(t) => t,
        None => String::from_str("N/A"),
    }
}

} // verus!
