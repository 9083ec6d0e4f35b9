//! Probe samples and the scorer that ranks interfaces by a composite score.
//!
//! Quantities are fixed-point integers: latency in microseconds, packet loss
//! in parts per million, throughput in bytes per second, and scores in
//! thousandths of a point (a perfect interface scores 100_000).
use vstd::prelude::*;

use crate::text::str_eq;
use vstd::multiset::Multiset;
use vstd::seq_lib::{lemma_multiset_commutative, to_multiset_contains, to_multiset_remove};

verus! {

/// Latency assumed when no reachable sample carried one: 100 ms.
pub const DEFAULT_LATENCY_US: u64 = 100_000;

/// Loss of a fully lost probe, in parts per million.
pub const FULL_LOSS_PPM: u32 = 1_000_000;

/// Throughput that earns the full throughput score: 1024 KB/s.
pub const FULL_SPEED_BPS: u64 = 1_048_576;

/// One probe outcome for an (interface, destination) pair.
#[derive(Clone, Debug)]
pub struct TestResult {
    pub interface: String,
    pub target: String,
    pub reachable: bool,
    /// Mean round-trip time in microseconds.
    pub latency_us: Option<u64>,
    /// Loss fraction in parts per million.
    pub packet_loss_ppm: Option<u32>,
    /// Throughput in bytes per second.
    pub download_speed: Option<u64>,
    /// Capture time, in milliseconds since the Unix epoch.
    pub tested_at: i64,
}

/// Aggregate of one interface's samples for a cycle.
#[derive(Clone, Debug)]
pub struct InterfaceScore {
    pub interface: String,
    pub reachable_count: usize,
    /// Mean latency in microseconds; `None` stands for an infinite latency.
    pub avg_latency_us: Option<u64>,
    pub avg_packet_loss_ppm: u32,
    pub avg_speed: u64,
    /// Composite score in thousandths of a point.
    pub score: u64,
}

pub struct ScoreView {
    pub interface: Seq<char>,
    pub reachable_count: nat,
    pub avg_latency_us: Option<nat>,
    pub avg_packet_loss_ppm: nat,
    pub avg_speed: nat,
    pub score: nat,
}

impl View for InterfaceScore {
    type V = ScoreView;

    open spec fn view(&self) -> ScoreView {
        ScoreView {
            interface: self.interface@,
            reachable_count: self.reachable_count as nat,
            avg_latency_us: match self.avg_latency_us {
                Some(l) => Some(l as nat),
                None => None,
            },
            avg_packet_loss_ppm: self.avg_packet_loss_ppm as nat,
            avg_speed: self.avg_speed as nat,
            score: self.score as nat,
        }
    }
}

pub open spec fn score_views(s: Seq<InterfaceScore>) -> Seq<ScoreView> {
    s.map_values(|x: InterfaceScore| x@)
}

/// What one sample adds to one of an interface's tallies.
pub enum Tally {
    Samples,
    Reachable,
    LatencySum,
    LatencyCount,
    LossSum,
    LossCount,
    SpeedSum,
    SpeedCount,
}

pub open spec fn tally_of(r: TestResult, t: Tally) -> nat {
    match t {
        Tally::Samples => 1,
        Tally::Reachable => if r.reachable { 1 } else { 0 },
        Tally::LatencySum => if r.reachable && r.latency_us is Some {
            r.latency_us->0 as nat
        } else {
            0
        },
        Tally::LatencyCount => if r.reachable && r.latency_us is Some { 1 } else { 0 },
        Tally::LossSum => if r.reachable && r.packet_loss_ppm is Some {
            r.packet_loss_ppm->0 as nat
        } else {
            0
        },
        Tally::LossCount => if r.reachable && r.packet_loss_ppm is Some { 1 } else { 0 },
        Tally::SpeedSum => if r.reachable && r.download_speed is Some {
            r.download_speed->0 as nat
        } else {
            0
        },
        Tally::SpeedCount => if r.reachable && r.download_speed is Some { 1 } else { 0 },
    }
}

/// The tally `t` over the samples of interface `name`.
pub open spec fn tally(rs: Seq<TestResult>, name: Seq<char>, t: Tally) -> nat
    decreases rs.len(),
{
    if rs.len() == 0 {
        0
    } else {
        tally(rs.drop_last(), name, t) + if rs.last().interface@ == name {
            tally_of(rs.last(), t)
        } else {
            0
        }
    }
}

pub open spec fn mean(sum: nat, n: nat, default: nat) -> nat {
    if n == 0 {
        default
    } else {
        sum / n
    }
}

/// Reachability part of the score: 30 points times the reachable ratio,
/// rounded up so that any reachable interface scores above zero.
pub open spec fn reach_points(reach: nat, total: nat) -> nat {
    if total == 0 {
        0
    } else {
        ((reach * 30_000 + total - 1) / total as int) as nat
    }
}

/// Latency sub-score: min(1000 / mean latency in ms, 100) points.
pub open spec fn latency_points(lat_us: nat) -> nat {
    if lat_us <= 10_000 {
        100_000
    } else {
        1_000_000_000nat / lat_us
    }
}

/// Loss sub-score: (1 - mean loss) * 100 points.
pub open spec fn loss_points(loss_ppm: nat) -> nat {
    if loss_ppm >= 1_000_000 {
        0
    } else {
        ((1_000_000 - loss_ppm) / 10) as nat
    }
}

/// Throughput sub-score: min(mean KB/s / 1024 * 100, 100) points.
pub open spec fn speed_points(speed: nat) -> nat {
    if speed >= FULL_SPEED_BPS {
        100_000
    } else {
        speed * 100_000 / FULL_SPEED_BPS as nat
    }
}

/// The composite score: reachability 30%, throughput 40%, loss 20%, latency 10%.
pub open spec fn composite(reach: nat, total: nat, lat_us: nat, loss_ppm: nat, speed: nat) -> nat {
    reach_points(reach, total) + (speed_points(speed) * 4 + loss_points(loss_ppm) * 2
        + latency_points(lat_us)) / 10
}

/// The score of interface `name` over the samples `rs`.
pub open spec fn score_model(rs: Seq<TestResult>, name: Seq<char>) -> ScoreView {
    let total = tally(rs, name, Tally::Samples);
    let reach = tally(rs, name, Tally::Reachable);
    if reach == 0 {
        ScoreView {
            interface: name,
            reachable_count: 0,
            avg_latency_us: None,
            avg_packet_loss_ppm: FULL_LOSS_PPM as nat,
            avg_speed: 0,
            score: 0,
        }
    } else {
        let lat = mean(
            tally(rs, name, Tally::LatencySum),
            tally(rs, name, Tally::LatencyCount),
            DEFAULT_LATENCY_US as nat,
        );
        let loss = mean(tally(rs, name, Tally::LossSum), tally(rs, name, Tally::LossCount), 0);
        let speed = mean(tally(rs, name, Tally::SpeedSum), tally(rs, name, Tally::SpeedCount), 0);
        ScoreView {
            interface: name,
            reachable_count: reach,
            avg_latency_us: Some(lat),
            avg_packet_loss_ppm: loss,
            avg_speed: speed,
            score: composite(reach, total, lat, loss, speed),
        }
    }
}

/// The interface names of `rs`, each once, in the order of first appearance.
pub open spec fn first_seen(rs: Seq<TestResult>) -> Seq<Seq<char>>
    decreases rs.len(),
{
    if rs.len() == 0 {
        seq![]
    } else {
        let p = first_seen(rs.drop_last());
        if p.contains(rs.last().interface@) {
            p
        } else {
            p.push(rs.last().interface@)
        }
    }
}

/// Index of the first entry with the highest score.
pub open spec fn best_index(pool: Seq<ScoreView>) -> int
    decreases pool.len(),
{
    if pool.len() <= 1 {
        0
    } else {
        let k = best_index(pool.drop_last());
        if pool.last().score > pool[k].score {
            pool.len() - 1
        } else {
            k
        }
    }
}

/// `pool` ordered by descending score; equal scores keep their order.
pub open spec fn ranked(pool: Seq<ScoreView>) -> Seq<ScoreView>
    decreases pool.len(),
{
    let k = best_index(pool);
    if 0 <= k < pool.len() {
        seq![pool[k]] + ranked(pool.remove(k))
    } else {
        seq![]
    }
}

/// The scores of a cycle: one per interface of `rs`, best first, ties in
/// order of first appearance.
pub open spec fn ranked_scores(rs: Seq<TestResult>) -> Seq<ScoreView> {
    ranked(first_seen(rs).map_values(|n: Seq<char>| score_model(rs, n)))
}

proof fn lemma_best_index(pool: Seq<ScoreView>)
    requires
        pool.len() > 0,
    ensures
        0 <= best_index(pool) < pool.len(),
        forall|i: int| 0 <= i < pool.len() ==> #[trigger] pool[i].score <= pool[best_index(pool)].score,
    decreases pool.len(),
{
    if pool.len() > 1 {
        let p = pool.drop_last();
        lemma_best_index(p);
        assert forall|i: int| 0 <= i < pool.len() implies #[trigger] pool[i].score <= pool[best_index(
            pool,
        )].score by {
            if i < pool.len() - 1 {
                assert(p[i] == pool[i]);
            }
        }
    }
}

fn reach_points_exec(reach: usize, total: usize) -> (r: u64)
    requires
        0 < reach <= total,
    ensures
        r == reach_points(reach as nat, total as nat),
        r <= 30_000,
{
    let num: u128 = reach as u128 * 30_000 + total as u128 - 1;
    let r = num / total as u128;
    assert(r <= 30_000) by (nonlinear_arith)
        requires
            r == num / total as u128,
            num == reach * 30_000 + total - 1,
            reach <= total,
            total > 0,
    ;
    r as u64
}

fn composite_exec(reach: usize, total: usize, lat_us: u64, loss_ppm: u32, speed: u64) -> (r: u64)
    requires
        0 < reach <= total,
    ensures
        r == composite(reach as nat, total as nat, lat_us as nat, loss_ppm as nat, speed as nat),
{
    let rp = reach_points_exec(reach, total);
    let lp: u64 = if lat_us <= 10_000 {
        100_000
    } else {
        1_000_000_000 / lat_us
    };
    let sp: u64 = if speed >= FULL_SPEED_BPS {
        100_000
    } else {
        speed * 100_000 / FULL_SPEED_BPS
    };
    let qp: u64 = if loss_ppm >= FULL_LOSS_PPM {
        0
    } else {
        ((FULL_LOSS_PPM - loss_ppm) / 10) as u64
    };
    assert(sp <= 100_000) by (nonlinear_arith)
        requires
            speed >= FULL_SPEED_BPS ==> sp == 100_000,
            speed < FULL_SPEED_BPS ==> sp == speed * 100_000 / FULL_SPEED_BPS as int,
    ;
    rp + (sp * 4 + qp * 2 + lp) / 10
}

const U64_MAX: u128 = 0xffff_ffff_ffff_ffff;

const U32_MAX: u128 = 0xffff_ffff;

fn mean_exec(sum: u128, n: u64, default: u64, bound: u128) -> (r: u64)
    requires
        sum <= n * bound,
        bound <= U64_MAX,
        default <= bound,
    ensures
        r == mean(sum as nat, n as nat, default as nat),
        r <= bound,
{
    if n == 0 {
        default
    } else {
        let q = sum / n as u128;
        assert(q <= bound) by (nonlinear_arith)
            requires
                q == sum / n as u128,
                sum <= n * bound,
                n > 0,
        ;
        q as u64
    }
}

/// Scores one interface over the samples `rs`.
pub fn score_interface(rs: &[TestResult], name: &str) -> (r: InterfaceScore)
    ensures
        r@ == score_model(rs@, name@),
{
    let mut total: usize = 0;
    let mut reach: usize = 0;
    let mut lat_sum: u128 = 0;
    let mut lat_n: u64 = 0;
    let mut loss_sum: u128 = 0;
    let mut loss_n: u64 = 0;
    let mut speed_sum: u128 = 0;
    let mut speed_n: u64 = 0;
    let mut i: usize = 0;
    while i < rs.len()
        invariant
            i <= rs.len(),
            total == tally(rs@.subrange(0, i as int), name@, Tally::Samples),
            reach == tally(rs@.subrange(0, i as int), name@, Tally::Reachable),
            lat_sum == tally(rs@.subrange(0, i as int), name@, Tally::LatencySum),
            lat_n == tally(rs@.subrange(0, i as int), name@, Tally::LatencyCount),
            loss_sum == tally(rs@.subrange(0, i as int), name@, Tally::LossSum),
            loss_n == tally(rs@.subrange(0, i as int), name@, Tally::LossCount),
            speed_sum == tally(rs@.subrange(0, i as int), name@, Tally::SpeedSum),
            speed_n == tally(rs@.subrange(0, i as int), name@, Tally::SpeedCount),
            reach <= total <= i,
            lat_n <= i,
            loss_n <= i,
            speed_n <= i,
            lat_sum <= lat_n * U64_MAX,
            loss_sum <= loss_n * U32_MAX,
            speed_sum <= speed_n * U64_MAX,
        decreases rs.len() - i,
    {
        let r = &rs[i];
        assert(rs@.subrange(0, i + 1).drop_last() =~= rs@.subrange(0, i as int));
        if str_eq(r.interface.as_str(), name) {
            total = total + 1;
            if r.reachable {
                reach = reach + 1;
                match r.latency_us {
                    Some(l) => {
                        assert((lat_n + 1) * U64_MAX == lat_n * U64_MAX + U64_MAX)
                            by (nonlinear_arith);
                        lat_sum = lat_sum + l as u128;
                        lat_n = lat_n + 1;
                    },
                    None => {},
                }
                match r.packet_loss_ppm {
                    Some(l) => {
                        assert((loss_n + 1) * U32_MAX == loss_n * U32_MAX + U32_MAX)
                            by (nonlinear_arith);
                        loss_sum = loss_sum + l as u128;
                        loss_n = loss_n + 1;
                    },
                    None => {},
                }
                match r.download_speed {
                    Some(s) => {
                        assert((speed_n + 1) * U64_MAX == speed_n * U64_MAX + U64_MAX)
                            by (nonlinear_arith);
                        speed_sum = speed_sum + s as u128;
                        speed_n = speed_n + 1;
                    },
                    None => {},
                }
            }
        }
        i = i + 1;
    }
    assert(rs@.subrange(0, rs@.len() as int) =~= rs@);
    if reach == 0 {
        return InterfaceScore {
            interface: name.to_owned(),
            reachable_count: 0,
            avg_latency_us: None,
            avg_packet_loss_ppm: FULL_LOSS_PPM,
            avg_speed: 0,
            score: 0,
        };
    }
    let lat = mean_exec(lat_sum, lat_n, DEFAULT_LATENCY_US, U64_MAX);
    let loss32 = mean_exec(loss_sum, loss_n, 0, U32_MAX) as u32;
    let speed = mean_exec(speed_sum, speed_n, 0, U64_MAX);
    InterfaceScore {
        interface: name.to_owned(),
        reachable_count: reach,
        avg_latency_us: Some(lat),
        avg_packet_loss_ppm: loss32,
        avg_speed: speed,
        score: composite_exec(reach, total, lat, loss32, speed),
    }
}

fn interface_names(rs: &[TestResult]) -> (r: Vec<String>)
    ensures
        r@.map_values(|n: String| n@) == first_seen(rs@),
{
    let mut names: Vec<String> = Vec::new();
    let mut i: usize = 0;
    while i < rs.len()
        invariant
            i <= rs.len(),
            names@.map_values(|n: String| n@) == first_seen(rs@.subrange(0, i as int)),
        decreases rs.len() - i,
    {
        assert(rs@.subrange(0, i + 1).drop_last() =~= rs@.subrange(0, i as int));
        let name = rs[i].interface.as_str();
        let ghost seen = names@.map_values(|n: String| n@);
        let mut found = false;
        let mut j: usize = 0;
        while j < names.len()
            invariant
                j <= names.len(),
                seen == names@.map_values(|n: String| n@),
                found == exists|k: int| 0 <= k < j && seen[k] == name@,
            decreases names.len() - j,
        {
            assert(seen[j as int] == names@[j as int]@);
            if str_eq(names[j].as_str(), name) {
                found = true;
            }
            assert(found == exists|k: int| 0 <= k < j + 1 && seen[k] == name@) by {
                if seen[j as int] == name@ {
                    assert(0 <= j < j + 1 && seen[j as int] == name@);
                }
            }
            j = j + 1;
        }
        assert(found == seen.contains(name@));
        if !found {
            names.push(name.to_owned());
            assert(names@.map_values(|n: String| n@) =~= seen.push(name@));
        }
        i = i + 1;
    }
    assert(rs@.subrange(0, rs@.len() as int) =~= rs@);
    names
}

fn best_index_exec(pool: &Vec<InterfaceScore>) -> (k: usize)
    requires
        pool.len() > 0,
    ensures
        k == best_index(score_views(pool@)),
        k < pool.len(),
{
    let ghost v = score_views(pool@);
    let mut k: usize = 0;
    let mut j: usize = 1;
    assert(v.subrange(0, 1).len() == 1);
    while j < pool.len()
        invariant
            1 <= j <= pool.len(),
            k < j,
            v == score_views(pool@),
            k == best_index(v.subrange(0, j as int)),
        decreases pool.len() - j,
    {
        let ghost sub = v.subrange(0, j + 1);
        assert(sub.drop_last() =~= v.subrange(0, j as int));
        assert(sub[k as int] == v[k as int]);
        if pool[j].score > pool[k].score {
            k = j;
        }
        j = j + 1;
    }
    assert(v.subrange(0, pool.len() as int) =~= v);
    k
}

fn rank(pool: Vec<InterfaceScore>) -> (r: Vec<InterfaceScore>)
    ensures
        score_views(r@) == ranked(score_views(pool@)),
{
    let ghost orig = score_views(pool@);
    let mut pool = pool;
    let mut out: Vec<InterfaceScore> = Vec::new();
    while pool.len() > 0
        invariant
            score_views(out@) + ranked(score_views(pool@)) == ranked(orig),
        decreases pool.len(),
    {
        let ghost v = score_views(pool@);
        let k = best_index_exec(&pool);
        let item = pool.remove(k);
        assert(score_views(pool@) =~= v.remove(k as int));
        let ghost before = score_views(out@);
        out.push(item);
        assert(score_views(out@) =~= before.push(item@));
        assert(ranked(v) == seq![v[k as int]] + ranked(v.remove(k as int)));
        assert(score_views(out@) + ranked(score_views(pool@)) =~= before + ranked(v));
    }
    assert(ranked(score_views(pool@)) =~= Seq::<ScoreView>::empty());
    assert(score_views(out@) =~= score_views(out@) + ranked(score_views(pool@)));
    out
}

/// Concurrency and timeout settings of the prober.
pub struct NetworkTester {
    timeout_secs: u64,
    concurrent_tests: usize,
}

impl NetworkTester {
    /// A tester with the per-probe timeout in seconds and the number of
    /// destinations probed at once on one interface.
    pub fn new(timeout_secs: u64, concurrent_tests: usize) -> (r: NetworkTester)
        ensures
            r.timeout_secs() == timeout_secs,
            r.concurrent_tests() == concurrent_tests,
    {
        NetworkTester { timeout_secs, concurrent_tests }
    }

    pub closed spec fn timeout_secs(&self) -> u64 {
        self.timeout_secs
    }

    pub closed spec fn concurrent_tests(&self) -> usize {
        self.concurrent_tests
    }

    /// The per-probe timeout in seconds.
    pub fn timeout(&self) -> (r: u64)
        ensures
            r == self.timeout_secs(),
    {
        self.timeout_secs
    }

    /// The number of destinations probed at once on one interface.
    pub fn concurrency(&self) -> (r: usize)
        ensures
            r == self.concurrent_tests(),
    {
        self.concurrent_tests
    }

    /// The destination batches of one interface's sweep over `n`
    /// destinations: consecutive index ranges `[start, end)` of at most
    /// `concurrent_tests` destinations each, covering all of them in order.
    pub fn batch_bounds(&self, n: usize) -> (r: Vec<(usize, usize)>)
        requires
            self.concurrent_tests() > 0,
        ensures
            forall|i: int|
                0 <= i < r.len() ==> (#[trigger] r@[i]).0 == i * self.concurrent_tests() && r@[i].1
                    == if (i + 1) * self.concurrent_tests() <= n {
                    (i + 1) * self.concurrent_tests()
                } else {
                    n as int
                },
            r.len() * self.concurrent_tests() >= n,
            r.len() == 0 || (r.len() - 1) * self.concurrent_tests() < n,
    {
        let c = self.concurrent_tests;
        let mut out: Vec<(usize, usize)> = Vec::new();
        let mut start: usize = 0;
        assert(out.len() * c == 0) by (nonlinear_arith)
            requires
                out.len() == 0,
        ;
        while start < n
            invariant
                c == self.concurrent_tests(),
                c > 0,
                start == out.len() * c,
                start <= n,
                out.len() == 0 || (out.len() - 1) * c < n,
                forall|i: int|
                    0 <= i < out.len() ==> (#[trigger] out@[i]).0 == i * c && out@[i].1 == if (i
                        + 1) * c <= n {
                        (i + 1) * c
                    } else {
                        n as int
                    },
            decreases n - start,
        {
            let end: usize = if n - start <= c {
                n
            } else {
                start + c
            };
            proof {
                assert((out.len() + 1) * c == out.len() * c + c) by (nonlinear_arith);
            }
            out.push((start, end));
            if end == n {
                proof {
                    assert(out.len() * c >= n);
                }
                return out;
            }
            start = end;
        }
        out
    }

    /// One score per interface that appears in `results`, best first; equal
    /// scores keep the order in which the interfaces first appear.
    pub fn calculate_scores(&self, results: &[TestResult]) -> (r: Vec<InterfaceScore>)
        ensures
            score_views(r@) == ranked_scores(results@),
    {
        let names = interface_names(results);
        let ghost firsts = first_seen(results@);
        let mut unsorted: Vec<InterfaceScore> = Vec::new();
        let mut k: usize = 0;
        while k < names.len()
            invariant
                k <= names.len(),
                unsorted.len() == k,
                names@.map_values(|n: String| n@) == firsts,
                score_views(unsorted@) == firsts.subrange(0, k as int).map_values(
                    |n: Seq<char>| score_model(results@, n),
                ),
            decreases names.len() - k,
        {
            let s = score_interface(results, names[k].as_str());
            let ghost before = score_views(unsorted@);
            let ghost old_unsorted = unsorted@;
            unsorted.push(s);
            assert(firsts[k as int] == names@.map_values(|n: String| n@)[k as int]);
            assert(firsts[k as int] == names@[k as int]@);
            assert(score_views(unsorted@)[k as int] == s@);
            let ghost target = firsts.subrange(0, k + 1).map_values(
                |n: Seq<char>| score_model(results@, n),
            );
            assert(firsts.len() == names.len());
            assert forall|i: int| 0 <= i <= k implies score_views(unsorted@)[i] == target[i] by {
                if i < k {
                    assert(unsorted@[i] == old_unsorted[i]);
                    assert(before[i] == score_model(results@, firsts[i]));
                }
            }
            assert(score_views(unsorted@) =~= firsts.subrange(0, k + 1).map_values(
                |n: Seq<char>| score_model(results@, n),
            ));
            k = k + 1;
        }
        assert(firsts.subrange(0, names.len() as int) =~= firsts);
        rank(unsorted)
    }

    /// The best interface of a ranked score list: its first entry.
    pub fn get_best_interface<'a>(&self, scores: &'a [InterfaceScore]) -> (r: Option<
        &'a InterfaceScore,
    >)
        ensures
            match r {
                Some(b) => scores@.len() > 0 && *b == scores@[0],
                None => scores@.len() == 0,
            },
    {
        if scores.len() > 0 {
            Some(&scores[0])
        } else {
            None
        }
    }
}

proof fn lemma_reachable_le_samples(rs: Seq<TestResult>, name: Seq<char>)
    ensures
        tally(rs, name, Tally::Reachable) <= tally(rs, name, Tally::Samples),
    decreases rs.len(),
{
    if rs.len() > 0 {
        lemma_reachable_le_samples(rs.drop_last(), name);
    }
}

proof fn lemma_sampled_name_is_seen(rs: Seq<TestResult>, name: Seq<char>)
    requires
        tally(rs, name, Tally::Samples) > 0,
    ensures
        first_seen(rs).contains(name),
    decreases rs.len(),
{
    let p = first_seen(rs.drop_last());
    if rs.last().interface@ == name {
        if !p.contains(name) {
            assert(p.push(name)[p.len() as int] == name);
        }
    } else {
        lemma_sampled_name_is_seen(rs.drop_last(), name);
        let k = choose|k: int| 0 <= k < p.len() && p[k] == name;
        if !p.contains(rs.last().interface@) {
            assert(p.push(rs.last().interface@)[k] == name);
        }
    }
}

/// An interface with no reachable sample scores exactly zero, and is not
/// ranked first when another interface has a reachable sample.
pub proof fn lemma_unreachable_never_best(rs: Seq<TestResult>, a: Seq<char>, b: Seq<char>)
    requires
        tally(rs, a, Tally::Reachable) == 0,
        tally(rs, b, Tally::Reachable) > 0,
    ensures
        score_model(rs, a).score == 0,
        ranked_scores(rs).len() > 0,
        ranked_scores(rs)[0].interface != a,
        ranked_scores(rs)[0].score > 0,
{
    lemma_reachable_le_samples(rs, b);
    lemma_sampled_name_is_seen(rs, b);
    let firsts = first_seen(rs);
    let pool = firsts.map_values(|n: Seq<char>| score_model(rs, n));
    let j = choose|j: int| 0 <= j < firsts.len() && firsts[j] == b;
    let reach = tally(rs, b, Tally::Reachable);
    let total = tally(rs, b, Tally::Samples);
    assert(reach * 30_000 + total - 1 >= total) by (nonlinear_arith)
        requires
            reach >= 1,
    ;
    assert((reach * 30_000 + total - 1) / total as int >= 1) by (nonlinear_arith)
        requires
            reach * 30_000 + total - 1 >= total,
            total > 0,
    ;
    assert(pool[j].score > 0);
    lemma_best_index(pool);
    let k = best_index(pool);
    assert(pool[j].score <= pool[k].score);
    assert(ranked(pool)[0] == pool[k]);
}

/// Two sample sequences that agree in every field the scorer reads.
pub open spec fn same_samples(x: Seq<TestResult>, y: Seq<TestResult>) -> bool {
    &&& x.len() == y.len()
    &&& forall|i: int|
        0 <= i < x.len() ==> {
            &&& #[trigger] x[i].interface@ == y[i].interface@
            &&& x[i].reachable == y[i].reachable
            &&& x[i].latency_us == y[i].latency_us
            &&& x[i].packet_loss_ppm == y[i].packet_loss_ppm
            &&& x[i].download_speed == y[i].download_speed
        }
}

proof fn lemma_same_tallies(x: Seq<TestResult>, y: Seq<TestResult>, name: Seq<char>, t: Tally)
    requires
        same_samples(x, y),
    ensures
        tally(x, name, t) == tally(y, name, t),
        first_seen(x) == first_seen(y),
    decreases x.len(),
{
    if x.len() > 0 {
        let (xd, yd) = (x.drop_last(), y.drop_last());
        assert forall|i: int| 0 <= i < xd.len() implies {
            &&& #[trigger] xd[i].interface@ == yd[i].interface@
            &&& xd[i].reachable == yd[i].reachable
            &&& xd[i].latency_us == yd[i].latency_us
            &&& xd[i].packet_loss_ppm == yd[i].packet_loss_ppm
            &&& xd[i].download_speed == yd[i].download_speed
        } by {
            assert(xd[i] == x[i] && yd[i] == y[i]);
            assert(x[i].interface@ == y[i].interface@);
        }
        assert(same_samples(xd, yd));
        assert(x[x.len() - 1].interface@ == y[y.len() - 1].interface@);
        lemma_same_tallies(xd, yd, name, t);
    }
}

/// Scoring is a function of the samples: sample sequences that agree in
/// every field the scorer reads get the same scores in the same order.
pub proof fn lemma_scoring_is_deterministic(x: Seq<TestResult>, y: Seq<TestResult>)
    requires
        same_samples(x, y),
    ensures
        ranked_scores(x) == ranked_scores(y),
{
    lemma_same_tallies(x, y, seq![], Tally::Samples);
    assert forall|n: Seq<char>| #[trigger] score_model(x, n) == score_model(y, n) by {
        lemma_same_tallies(x, y, n, Tally::Samples);
        lemma_same_tallies(x, y, n, Tally::Reachable);
        lemma_same_tallies(x, y, n, Tally::LatencySum);
        lemma_same_tallies(x, y, n, Tally::LatencyCount);
        lemma_same_tallies(x, y, n, Tally::LossSum);
        lemma_same_tallies(x, y, n, Tally::LossCount);
        lemma_same_tallies(x, y, n, Tally::SpeedSum);
        lemma_same_tallies(x, y, n, Tally::SpeedCount);
    }
    assert(first_seen(x).map_values(|n: Seq<char>| score_model(x, n)) =~= first_seen(y).map_values(
        |n: Seq<char>| score_model(y, n),
    ));
}

proof fn lemma_ranked_permutes(pool: Seq<ScoreView>)
    ensures
        ranked(pool).to_multiset() =~= pool.to_multiset(),
    decreases pool.len(),
{
    broadcast use vstd::multiset::group_multiset_axioms, vstd::seq_lib::group_to_multiset_ensures;

    if pool.len() == 0 {
        assert(ranked(pool) =~= Seq::<ScoreView>::empty());
    } else {
        lemma_best_index(pool);
        let k = best_index(pool);
        let rest = pool.remove(k);
        lemma_ranked_permutes(rest);
        lemma_multiset_commutative(seq![pool[k]], ranked(rest));
        to_multiset_remove(pool, k);
        assert(seq![pool[k]] =~= Seq::<ScoreView>::empty().push(pool[k]));
        assert(Seq::<ScoreView>::empty().to_multiset() =~= Multiset::<ScoreView>::empty());
        assert(seq![pool[k]].to_multiset() =~= Multiset::<ScoreView>::empty().insert(pool[k]));
        to_multiset_contains(pool, pool[k]);
        assert(ranked(pool) == seq![pool[k]] + ranked(rest));
        assert(pool.to_multiset().remove(pool[k]).insert(pool[k]) =~= pool.to_multiset());
    }
}

proof fn lemma_first_seen_distinct(rs: Seq<TestResult>)
    ensures
        first_seen(rs).no_duplicates(),
        forall|i: int|
            0 <= i < first_seen(rs).len() ==> tally(rs, #[trigger] first_seen(rs)[i], Tally::Samples)
                > 0,
    decreases rs.len(),
{
    if rs.len() > 0 {
        let d = rs.drop_last();
        lemma_first_seen_distinct(d);
        let p = first_seen(d);
        let f = first_seen(rs);
        assert forall|i: int| 0 <= i < f.len() implies tally(rs, #[trigger] f[i], Tally::Samples)
            > 0 by {
            if i < p.len() {
                assert(f[i] == p[i]);
                assert(tally(d, p[i], Tally::Samples) > 0);
            }
        }
    }
}

proof fn lemma_reachable_sample_counts(rs: Seq<TestResult>, i: int)
    requires
        0 <= i < rs.len(),
        rs[i].reachable,
    ensures
        tally(rs, rs[i].interface@, Tally::Reachable) > 0,
    decreases rs.len(),
{
    if i < rs.len() - 1 {
        let d = rs.drop_last();
        assert(d[i] == rs[i]);
        lemma_reachable_sample_counts(d, i);
    }
}

/// Every interface that has samples gets exactly one entry in the ranking,
/// and that entry is its score; in particular an interface without a
/// reachable sample gets one entry scoring zero, with infinite latency,
/// full loss and no throughput.
pub proof fn lemma_one_score_per_interface(rs: Seq<TestResult>, a: Seq<char>)
    requires
        tally(rs, a, Tally::Samples) > 0,
    ensures
        exists|p: int|
            0 <= p < ranked_scores(rs).len() && #[trigger] ranked_scores(rs)[p] == score_model(rs, a),
        forall|p: int, q: int|
            0 <= p < ranked_scores(rs).len() && 0 <= q < ranked_scores(rs).len() && (
            #[trigger] ranked_scores(rs)[p]).interface == a && (#[trigger] ranked_scores(
                rs,
            )[q]).interface == a ==> p == q,
        tally(rs, a, Tally::Reachable) == 0 ==> score_model(rs, a) == (ScoreView {
            interface: a,
            reachable_count: 0,
            avg_latency_us: None,
            avg_packet_loss_ppm: 1_000_000,
            avg_speed: 0,
            score: 0,
        }),
{
    let firsts = first_seen(rs);
    let pool = firsts.map_values(|n: Seq<char>| score_model(rs, n));
    let r = ranked_scores(rs);
    lemma_first_seen_distinct(rs);
    lemma_sampled_name_is_seen(rs, a);
    lemma_ranked_permutes(pool);
    assert(pool.no_duplicates()) by {
        assert forall|i: int, j: int| 0 <= i < pool.len() && 0 <= j < pool.len() && i != j implies pool[i]
            != pool[j] by {
            assert(pool[i].interface == firsts[i] && pool[j].interface == firsts[j]);
        }
    }
    pool.lemma_multiset_has_no_duplicates();
    assert forall|x: ScoreView| r.to_multiset().contains(x) implies r.to_multiset().count(x)
        == 1 by {}
    r.lemma_multiset_has_no_duplicates_conv();
    // membership
    let j = choose|j: int| 0 <= j < firsts.len() && firsts[j] == a;
    assert(pool[j] == score_model(rs, a));
    to_multiset_contains(pool, pool[j]);
    to_multiset_contains(r, pool[j]);
    assert(r.contains(score_model(rs, a)));
    // uniqueness
    assert forall|p: int, q: int|
        0 <= p < r.len() && 0 <= q < r.len() && (#[trigger] r[p]).interface == a && (
        #[trigger] r[q]).interface == a implies p == q by {
        to_multiset_contains(r, r[p]);
        to_multiset_contains(r, r[q]);
        to_multiset_contains(pool, r[p]);
        to_multiset_contains(pool, r[q]);
        let x = choose|x: int| 0 <= x < pool.len() && pool[x] == r[p];
        let y = choose|y: int| 0 <= y < pool.len() && pool[y] == r[q];
        assert(pool[x] == score_model(rs, firsts[x]));
        assert(pool[y] == score_model(rs, firsts[y]));
        assert(r[p] == r[q]);
    }
}

/// When any sample is reachable, the best-ranked interface has a reachable
/// sample and a score above zero.
pub proof fn lemma_best_is_reachable(rs: Seq<TestResult>, i: int)
    requires
        0 <= i < rs.len(),
        rs[i].reachable,
    ensures
        ranked_scores(rs).len() > 0,
        ranked_scores(rs)[0].reachable_count > 0,
        ranked_scores(rs)[0].score > 0,
{
    let b = rs[i].interface@;
    lemma_reachable_sample_counts(rs, i);
    lemma_reachable_le_samples(rs, b);
    lemma_sampled_name_is_seen(rs, b);
    let firsts = first_seen(rs);
    let pool = firsts.map_values(|n: Seq<char>| score_model(rs, n));
    let j = choose|j: int| 0 <= j < firsts.len() && firsts[j] == b;
    let reach = tally(rs, b, Tally::Reachable);
    let total = tally(rs, b, Tally::Samples);
    assert(reach * 30_000 + total - 1 >= total) by (nonlinear_arith)
        requires
            reach >= 1,
    ;
    assert((reach * 30_000 + total - 1) / total as int >= 1) by (nonlinear_arith)
        requires
            reach * 30_000 + total - 1 >= total,
            total > 0,
    ;
    assert(pool[j].score > 0);
    lemma_best_index(pool);
    let k = best_index(pool);
    assert(pool[j].score <= pool[k].score);
    assert(ranked(pool)[0] == pool[k]);
    assert(pool[k] == score_model(rs, firsts[k]));
}

} // verus!
