//! Reading the output of the reachability and throughput tools.
//!
//! Numbers are decimal (`12`, `12.5`, `.5`) and are read as fixed-point
//! integers; a fraction finer than the unit is cut off. Anything else reads
//! as absent.
use vstd::prelude::*;

use crate::network::{TestResult, FULL_LOSS_PPM};
use crate::openwrt::{all_digits, digits_value, is_digit, lemma_digits_value_grows};
use crate::text::{
    contains, has_substring, owned, split_at_char, split_on, strip, strip_both, strip_end,
    is_space, views, Strip,
};

verus! {

/// Echo probes sent to each destination.
pub const PING_COUNT: u32 = 4;

pub open spec fn pow10(k: nat) -> nat
    decreases k,
{
    if k == 0 {
        1
    } else {
        10 * pow10((k - 1) as nat)
    }
}

/// The first `k` fraction digits of `d` as an integer, padded with zeros.
pub open spec fn frac_value(d: Seq<char>, k: nat) -> nat
    decreases k,
{
    if k == 0 {
        0
    } else {
        frac_value(d, (k - 1) as nat) * 10 + if k - 1 < d.len() {
            (d[k - 1] as nat - '0' as nat) as nat
        } else {
            0
        }
    }
}

/// The decimal `s` in units of `10^-k`, when it is a decimal number.
pub open spec fn fixed_value(s: Seq<char>, k: nat) -> Option<nat> {
    let parts = split_on(s, '.');
    if parts.len() == 1 && parts[0].len() > 0 && all_digits(parts[0]) {
        Some(digits_value(parts[0]) * pow10(k))
    } else if parts.len() == 2 && parts[0].len() + parts[1].len() > 0 && all_digits(parts[0])
        && all_digits(parts[1]) {
        Some(digits_value(parts[0]) * pow10(k) + frac_value(parts[1], k))
    } else {
        None
    }
}

/// `fixed_value` when it fits in `bound`.
pub open spec fn fixed_within(s: Seq<char>, k: nat, bound: nat) -> Option<nat> {
    match fixed_value(s, k) {
        Some(v) => if v <= bound {
            Some(v)
        } else {
            None
        },
        None => None,
    }
}

/// The value of a string of decimal digits, when it fits in a `u64`.
fn digits_u64(s: &str) -> (r: Option<u64>)
    ensures
        r == (if all_digits(s@) && digits_value(s@) <= u64::MAX {
            Some(digits_value(s@) as u64)
        } else {
            None::<u64>
        }),
{
    let n = s.unicode_len();
    let mut i: usize = 0;
    let mut acc: u64 = 0;
    while i < n
        invariant
            n == s@.len(),
            i <= n,
            forall|j: int| 0 <= j < i ==> is_digit(#[trigger] s@[j]),
            acc == digits_value(s@.subrange(0, i as int)),
        decreases n - i,
    {
        let c = s.get_char(i);
        if !('0' <= c && c <= '9') {
            assert(!is_digit(s@[i as int]));
            return None;
        }
        assert(s@.subrange(0, i + 1).drop_last() =~= s@.subrange(0, i as int));
        let d = c as u64 - '0' as u64;
        if acc > (u64::MAX - d) / 10 {
            proof {
                if all_digits(s@) {
                    lemma_digits_value_grows(s@, i + 1);
                }
            }
            return None;
        }
        acc = acc * 10 + d;
        i = i + 1;
    }
    assert(s@.subrange(0, n as int) =~= s@);
    Some(acc)
}

proof fn lemma_pow10_small(i: nat)
    requires
        i <= 6,
    ensures
        1 <= pow10(i) <= 1_000_000,
{
    reveal_with_fuel(pow10, 7);
}

fn pow10_exec(k: u32) -> (r: u128)
    requires
        k <= 6,
    ensures
        r == pow10(k as nat),
        r <= 1_000_000,
{
    let mut r: u128 = 1;
    let mut i: u32 = 0;
    while i < k
        invariant
            i <= k <= 6,
            r == pow10(i as nat),
        decreases k - i,
    {
        proof {
            lemma_pow10_small(i as nat);
        }
        r = r * 10;
        i = i + 1;
    }
    proof {
        lemma_pow10_small(k as nat);
    }
    r
}

proof fn lemma_frac_bound(d: Seq<char>, k: nat)
    requires
        all_digits(d),
    ensures
        frac_value(d, k) < pow10(k),
    decreases k,
{
    if k > 0 {
        lemma_frac_bound(d, (k - 1) as nat);
        if k - 1 < d.len() {
            assert(is_digit(d[k - 1]));
        }
    }
}

fn frac_exec(d: &str, k: u32) -> (r: u128)
    requires
        k <= 6,
        all_digits(d@),
    ensures
        r == frac_value(d@, k as nat),
{
    let n = d.unicode_len();
    let mut r: u128 = 0;
    let mut i: u32 = 0;
    while i < k
        invariant
            i <= k <= 6,
            n == d@.len(),
            all_digits(d@),
            r == frac_value(d@, i as nat),
        decreases k - i,
    {
        proof {
            lemma_frac_bound(d@, i as nat);
            lemma_pow10_small(i as nat);
        }
        let digit: u128 = if (i as usize) < n {
            let c = d.get_char(i as usize);
            assert(is_digit(d@[i as int]));
            (c as u32 - '0' as u32) as u128
        } else {
            0
        };
        r = r * 10 + digit;
        i = i + 1;
    }
    r
}

/// Reads the decimal `s` in units of `10^-k`; absent when it is no decimal
/// number or exceeds `bound`.
pub fn parse_fixed(s: &str, k: u32, bound: u64) -> (r: Option<u64>)
    requires
        k <= 6,
    ensures
        match r {
            Some(v) => fixed_within(s@, k as nat, bound as nat) == Some(v as nat),
            None => fixed_within(s@, k as nat, bound as nat) is None,
        },
{
    let parts = split_at_char(s, '.');
    let ghost pv = views(parts@);
    if parts.len() > 2 {
        return None;
    }
    assert(pv[0] == parts@[0]@);
    let scale = pow10_exec(k);
    proof {
        lemma_pow10_small(k as nat);
        if all_digits(pv[0]) && digits_value(pv[0]) > u64::MAX {
            assert(digits_value(pv[0]) * pow10(k as nat) >= digits_value(pv[0])) by (nonlinear_arith)
                requires
                    pow10(k as nat) >= 1,
            ;
        }
    }
    let whole = parts[0].as_str();
    let int_part: u128 = if parts.len() == 1 {
        if whole.unicode_len() == 0 {
            return None;
        }
        match digits_u64(whole) {
            Some(v) => v as u128,
            None => {
                return None;
            },
        }
    } else {
        assert(pv[1] == parts@[1]@);
        if whole.unicode_len() == 0 && parts[1].as_str().unicode_len() == 0 {
            return None;
        }
        if whole.unicode_len() == 0 {
            assert(digits_value(whole@) == 0);
            assert(all_digits(whole@));
            0
        } else {
            match digits_u64(whole) {
                Some(v) => v as u128,
                None => {
                    return None;
                },
            }
        }
    };
    assert(int_part * scale <= 0xffff_ffff_ffff_ffffu128 * 1_000_000) by (nonlinear_arith)
        requires
            int_part <= 0xffff_ffff_ffff_ffffu128,
            scale <= 1_000_000,
    ;
    let value: u128 = if parts.len() == 1 {
        int_part * scale
    } else {
        let frac = parts[1].as_str();
        if !all_digits_exec(frac) {
            return None;
        }
        proof {
            lemma_frac_bound(frac@, k as nat);
        }
        int_part * scale + frac_exec(frac, k)
    };
    if value > bound as u128 {
        return None;
    }
    Some(value as u64)
}

fn all_digits_exec(s: &str) -> (r: bool)
    ensures
        r == all_digits(s@),
{
    let n = s.unicode_len();
    let mut i: usize = 0;
    while i < n
        invariant
            n == s@.len(),
            i <= n,
            forall|j: int| 0 <= j < i ==> is_digit(#[trigger] s@[j]),
        decreases n - i,
    {
        let c = s.get_char(i);
        if !('0' <= c && c <= '9') {
            assert(!is_digit(s@[i as int]));
            return false;
        }
        i = i + 1;
    }
    true
}

/// The trailing run of non-space characters of `s`.
pub open spec fn word_tail(s: Seq<char>) -> Seq<char>
    decreases s.len(),
{
    if s.len() == 0 || is_space(s.last()) {
        seq![]
    } else {
        word_tail(s.drop_last()).push(s.last())
    }
}

/// The last white-space separated word of `s`, if there is one.
pub open spec fn last_word(s: Seq<char>) -> Option<Seq<char>> {
    let t = strip_end(s, Strip::Space);
    if t.len() == 0 {
        None
    } else {
        Some(word_tail(t))
    }
}

/// The loss, in parts per million, that a line such as
/// `4 packets transmitted, 3 received, 25% packet loss` reports.
pub open spec fn line_loss(line: Seq<char>) -> Option<u32> {
    if contains(line, "packet loss"@) {
        match last_word(split_on(line, '%')[0]) {
            Some(w) => match fixed_within(w, 4, u32::MAX as nat) {
                Some(v) => Some(v as u32),
                None => None,
            },
            None => None,
        }
    } else {
        None
    }
}

/// The mean round-trip time, in microseconds, that a line such as
/// `rtt min/avg/max/mdev = 10.1/15.4/20.7/3.2 ms` reports: the second field.
pub open spec fn line_latency(line: Seq<char>) -> Option<u64> {
    if contains(line, "rtt"@) || contains(line, "round-trip"@) {
        let parts = split_on(line, '=');
        if parts.len() > 1 {
            let stats = split_on(strip_both(parts[1], Strip::Space), '/');
            if stats.len() >= 2 {
                match fixed_within(strip_both(stats[1], Strip::Space), 3, u64::MAX as nat) {
                    Some(v) => Some(v as u64),
                    None => None,
                }
            } else {
                None
            }
        } else {
            None
        }
    } else {
        None
    }
}

/// Loss and mean latency over the lines of a ping report; a later line
/// that reports one replaces what an earlier line reported.
pub open spec fn ping_summary(lines: Seq<Seq<char>>) -> (Option<u32>, Option<u64>)
    decreases lines.len(),
{
    if lines.len() == 0 {
        (None, None)
    } else {
        let (l, t) = ping_summary(lines.drop_last());
        (
            if line_loss(lines.last()) is Some {
                line_loss(lines.last())
            } else {
                l
            },
            if line_latency(lines.last()) is Some {
                line_latency(lines.last())
            } else {
                t
            },
        )
    }
}

/// Whether a routing tool's error output says that what it was asked to
/// add exists already; such a failure counts as success.
pub fn already_exists(stderr: &str) -> (r: bool)
    ensures
        r == contains(stderr@, "File exists"@),
{
    has_substring(stderr, "File exists")
}

/// What one echo probe run established.
pub struct ProbeOutcome {
    pub reachable: bool,
    pub latency_us: Option<u64>,
    pub packet_loss_ppm: Option<u32>,
}

fn last_word_exec(s: &str) -> (r: Option<&str>)
    ensures
        match r {
            Some(w) => last_word(s@) == Some(w@),
            None => last_word(s@) is None,
        },
{
    let t = strip_end_exec(s);
    let n = t.unicode_len();
    if n == 0 {
        return None;
    }
    let mut i: usize = n;
    assert(t@.subrange(0, n as int) =~= t@);
    assert(t@.subrange(n as int, n as int) =~= Seq::<char>::empty());
    assert(word_tail(t@) =~= word_tail(t@.subrange(0, n as int)) + t@.subrange(n as int, n as int));
    while i > 0 && !is_space_exec(t.get_char(i - 1))
        invariant
            n == t@.len(),
            i <= n,
            word_tail(t@) == word_tail(t@.subrange(0, i as int)) + t@.subrange(i as int, n as int),
        decreases i,
    {
        let ghost sub = t@.subrange(0, i as int);
        assert(sub.drop_last() =~= t@.subrange(0, i - 1));
        assert(t@.subrange(i - 1, n as int) =~= seq![t@[i - 1]] + t@.subrange(i as int, n as int));
        assert(word_tail(sub) == word_tail(sub.drop_last()).push(sub.last()));
        assert(word_tail(sub.drop_last()).push(sub.last()) + t@.subrange(i as int, n as int)
            =~= word_tail(t@.subrange(0, i - 1)) + t@.subrange(i - 1, n as int));
        i = i - 1;
    }
    assert(t@.subrange(0, n as int) =~= t@);
    assert(word_tail(t@.subrange(0, i as int)) =~= Seq::<char>::empty());
    assert(word_tail(t@) =~= t@.subrange(i as int, n as int));
    Some(t.substring_char(i, n))
}

fn is_space_exec(c: char) -> (r: bool)
    ensures
        r == is_space(c),
{
    c == '\t' || c == '\n' || c == '\u{0B}' || c == '\u{0C}' || c == '\r' || c == ' ' || c
        == '\u{85}' || c == '\u{A0}' || c == '\u{1680}' || ('\u{2000}' <= c && c <= '\u{200A}')
        || c == '\u{2028}' || c == '\u{2029}' || c == '\u{202F}' || c == '\u{205F}' || c
        == '\u{3000}'
}

fn strip_end_exec(s: &str) -> (r: &str)
    ensures
        r@ == strip_end(s@, Strip::Space),
{
    let n = s.unicode_len();
    let mut j: usize = n;
    assert(s@.subrange(0, n as int) =~= s@);
    while j > 0 && is_space_exec(s.get_char(j - 1))
        invariant
            n == s@.len(),
            j <= n,
            strip_end(s@.subrange(0, j as int), Strip::Space) == strip_end(s@, Strip::Space),
        decreases j,
    {
        assert(s@.subrange(0, j as int).drop_last() =~= s@.subrange(0, j - 1));
        j = j - 1;
    }
    s.substring_char(0, j)
}

/// The loss that one report line gives, if it gives one.
pub fn read_loss_line(line: &str) -> (r: Option<u32>)
    ensures
        r == line_loss(line@),
{
    if !has_substring(line, "packet loss") {
        return None;
    }
    let parts = split_at_char(line, '%');
    assert(views(parts@)[0] == parts@[0]@);
    match last_word_exec(parts[0].as_str()) {
        Some(w) => match parse_fixed(w, 4, u32::MAX as u64) {
            Some(v) => Some(v as u32),
            None => None,
        },
        None => None,
    }
}

/// The mean latency that one report line gives, if it gives one.
pub fn read_latency_line(line: &str) -> (r: Option<u64>)
    ensures
        r == line_latency(line@),
{
    if !(has_substring(line, "rtt") || has_substring(line, "round-trip")) {
        return None;
    }
    let parts = split_at_char(line, '=');
    if parts.len() <= 1 {
        return None;
    }
    assert(views(parts@)[1] == parts@[1]@);
    let stats = split_at_char(strip(parts[1].as_str(), Strip::Space), '/');
    if stats.len() < 2 {
        return None;
    }
    assert(views(stats@)[1] == stats@[1]@);
    parse_fixed(strip(stats[1].as_str(), Strip::Space), 3, u64::MAX)
}

/// Reads the packet loss (parts per million) and mean round-trip time
/// (microseconds) from a ping report; either is absent when no line gives it.
pub fn parse_ping_output(stdout: &str) -> (r: (Option<u32>, Option<u64>))
    ensures
        r == ping_summary(split_on(stdout@, '\n')),
{
    let lines = split_at_char(stdout, '\n');
    let ghost lv = views(lines@);
    let mut loss: Option<u32> = None;
    let mut latency: Option<u64> = None;
    let mut i: usize = 0;
    while i < lines.len()
        invariant
            i <= lines.len(),
            lv == views(lines@),
            (loss, latency) == ping_summary(lv.subrange(0, i as int)),
        decreases lines.len() - i,
    {
        assert(lv.subrange(0, i + 1).drop_last() =~= lv.subrange(0, i as int));
        assert(lv[i as int] == lines@[i as int]@);
        let line = lines[i].as_str();
        match read_loss_line(line) {
            Some(v) => {
                loss = Some(v);
            },
            None => {},
        }
        match read_latency_line(line) {
            Some(v) => {
                latency = Some(v);
            },
            None => {},
        }
        i = i + 1;
    }
    assert(lv.subrange(0, lines.len() as int) =~= lv);
    (loss, latency)
}

/// The outcome of a probe run that finished: reachable when the tool
/// succeeded and reported a loss below 100%.
pub fn probe_outcome(success: bool, stdout: &str) -> (r: ProbeOutcome)
    ensures
        (r.packet_loss_ppm, r.latency_us) == ping_summary(split_on(stdout@, '\n')),
        r.reachable == (success && match r.packet_loss_ppm {
            Some(l) => l < FULL_LOSS_PPM,
            None => false,
        }),
{
    let (loss, latency) = parse_ping_output(stdout);
    let reachable = success && match loss {
        Some(l) => l < FULL_LOSS_PPM,
        None => false,
    };
    ProbeOutcome { reachable, latency_us: latency, packet_loss_ppm: loss }
}

/// The outcome of a probe run that failed to start or timed out.
pub fn failed_probe() -> (r: ProbeOutcome)
    ensures
        !r.reachable,
        r.latency_us is None,
        r.packet_loss_ppm == Some(FULL_LOSS_PPM),
{
    ProbeOutcome { reachable: false, latency_us: None, packet_loss_ppm: Some(FULL_LOSS_PPM) }
}

/// Reads the throughput tool's output: one decimal number of bytes per
/// second; a fraction of a byte is cut off.
pub fn parse_speed_output(stdout: &str) -> (r: Option<u64>)
    ensures
        match r {
            Some(v) => fixed_within(strip_both(stdout@, Strip::Space), 0, u64::MAX as nat) == Some(
                v as nat,
            ),
            None => fixed_within(strip_both(stdout@, Strip::Space), 0, u64::MAX as nat) is None,
        },
{
    parse_fixed(strip(stdout, Strip::Space), 0, u64::MAX)
}

/// The address to probe: the destination without a `/prefix` suffix.
pub fn ping_target(address: &str) -> (r: String)
    ensures
        r@ == split_on(address@, '/')[0],
{
    let parts = split_at_char(address, '/');
    assert(views(parts@)[0] == parts@[0]@);
    owned(parts[0].as_str())
}

impl TestResult {
    /// The sample of one probe of `target` through `interface`, captured at
    /// `tested_at` (milliseconds since the Unix epoch). A throughput is kept
    /// only for a reachable destination.
    pub fn from_probe(
        interface: &str,
        target: &str,
        outcome: ProbeOutcome,
        speed: Option<u64>,
        tested_at: i64,
    ) -> (r: TestResult)
        ensures
            r.tested_at == tested_at,
            r.interface@ == interface@,
            r.target@ == target@,
            r.reachable == outcome.reachable,
            r.latency_us == outcome.latency_us,
            r.packet_loss_ppm == outcome.packet_loss_ppm,
            r.download_speed == if outcome.reachable {
                speed
            } else {
                None
            },
    {
        TestResult {
            interface: owned(interface),
            target: owned(target),
            reachable: outcome.reachable,
            latency_us: outcome.latency_us,
            packet_loss_ppm: outcome.packet_loss_ppm,
            download_speed: if outcome.reachable {
                speed
            } else {
                None
            },
            tested_at,
        }
    }
}

} // verus!
