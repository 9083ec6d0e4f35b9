//! Configuration values: global settings, interfaces and monitored destinations.
use vstd::prelude::*;

use crate::text::{owned, str_eq};

verus! {

/// Global settings.
#[derive(Clone, Debug)]
pub struct GlobalConfig {
    /// Seconds between cycles.
    pub check_interval: u64,
    /// Per-probe timeout in seconds.
    pub timeout: u64,
    /// Destinations probed at once on one interface.
    pub concurrent_tests: usize,
    /// Consecutive outranked cycles before a switch.
    pub failure_threshold: u32,
    /// Log level (trace, debug, info, warn, error).
    pub log_level: String,
    /// Whether decided switches are carried out.
    pub auto_switch: bool,
}

impl Default for GlobalConfig {
    fn default() -> (r: GlobalConfig)
        ensures
            r.check_interval == 60,
            r.timeout == 5,
            r.concurrent_tests == 4,
            r.failure_threshold == 3,
            r.log_level@ == "info"@,
            r.auto_switch,
    {
        GlobalConfig {
            check_interval: 60,
            timeout: 5,
            concurrent_tests: 4,
            failure_threshold: 3,
            log_level: owned("info"),
            auto_switch: true,
        }
    }
}

/// A candidate egress interface.
#[derive(Clone, Debug)]
pub struct NetworkInterface {
    /// Interface name (eth0, wlan0, pppoe-wan).
    pub name: String,
    pub display_name: String,
    /// Lower is preferred.
    pub priority: u32,
    pub enabled: bool,
    /// Policy-routing table id.
    pub table_id: Option<u32>,
    pub gateway: Option<String>,
}

/// A monitored destination. The configuration file may also carry a
/// `weight` for it; scoring does not read one, so none is kept.
#[derive(Clone, Debug)]
pub struct TargetIP {
    /// Address or host name, possibly with a `/32` suffix.
    pub address: String,
    pub description: String,
    /// URL of a throughput test, if any.
    pub test_url: Option<String>,
}

/// The whole configuration.
#[derive(Clone, Debug)]
pub struct Config {
    pub global: GlobalConfig,
    pub interfaces: Vec<NetworkInterface>,
    pub targets: Vec<TargetIP>,
}

/// Why a configuration is refused.
pub enum ConfigError {
    NoEnabledInterface,
    NoTargets,
    ZeroCheckInterval,
    ZeroTimeout,
    ZeroConcurrency,
    /// Two interfaces share this name.
    DuplicateInterface(String),
}

pub enum ConfigErrorView {
    NoEnabledInterface,
    NoTargets,
    ZeroCheckInterval,
    ZeroTimeout,
    ZeroConcurrency,
    DuplicateInterface(Seq<char>),
}

impl View for ConfigError {
    type V = ConfigErrorView;

    open spec fn view(&self) -> ConfigErrorView {
        match self {
            ConfigError::NoEnabledInterface => ConfigErrorView::NoEnabledInterface,
            ConfigError::NoTargets => ConfigErrorView::NoTargets,
            ConfigError::ZeroCheckInterval => ConfigErrorView::ZeroCheckInterval,
            ConfigError::ZeroTimeout => ConfigErrorView::ZeroTimeout,
            ConfigError::ZeroConcurrency => ConfigErrorView::ZeroConcurrency,
            ConfigError::DuplicateInterface(n) => ConfigErrorView::DuplicateInterface(n@),
        }
    }
}

/// Whether the name at `i` already appeared earlier.
pub open spec fn repeats_earlier(ifs: Seq<NetworkInterface>, i: int) -> bool {
    exists|j: int| 0 <= j < i && ifs[j].name@ == #[trigger] ifs[i].name@
}

/// Index of the first interface whose name repeats an earlier one;
/// `ifs.len()` when the names are distinct.
pub open spec fn first_repeat(ifs: Seq<NetworkInterface>) -> int
    decreases ifs.len(),
{
    if ifs.len() == 0 {
        0
    } else {
        let k = first_repeat(ifs.drop_last());
        if k < ifs.len() - 1 {
            k
        } else if repeats_earlier(ifs, ifs.len() - 1) {
            ifs.len() - 1
        } else {
            ifs.len() as int
        }
    }
}

/// The outcome of validating `c`: the first failed check, in order.
pub open spec fn validation(c: Config) -> Result<(), ConfigErrorView> {
    if !(exists|i: int| 0 <= i < c.interfaces.len() && (#[trigger] c.interfaces[i]).enabled) {
        Err(ConfigErrorView::NoEnabledInterface)
    } else if c.targets.len() == 0 {
        Err(ConfigErrorView::NoTargets)
    } else if c.global.check_interval == 0 {
        Err(ConfigErrorView::ZeroCheckInterval)
    } else if c.global.timeout == 0 {
        Err(ConfigErrorView::ZeroTimeout)
    } else if c.global.concurrent_tests == 0 {
        Err(ConfigErrorView::ZeroConcurrency)
    } else if first_repeat(c.interfaces@) < c.interfaces.len() {
        Err(ConfigErrorView::DuplicateInterface(c.interfaces[first_repeat(c.interfaces@)].name@))
    } else {
        Ok(())
    }
}

/// The enabled interfaces of `ifs`, in order.
pub open spec fn enabled_of(ifs: Seq<NetworkInterface>) -> Seq<NetworkInterface>
    decreases ifs.len(),
{
    if ifs.len() == 0 {
        seq![]
    } else if ifs.last().enabled {
        enabled_of(ifs.drop_last()).push(ifs.last())
    } else {
        enabled_of(ifs.drop_last())
    }
}

/// Index of the first entry with the lowest priority value.
pub open spec fn min_index(s: Seq<NetworkInterface>) -> int
    decreases s.len(),
{
    if s.len() <= 1 {
        0
    } else {
        let k = min_index(s.drop_last());
        if s.last().priority < s[k].priority {
            s.len() - 1
        } else {
            k
        }
    }
}

/// `s` ordered by ascending priority value; equal priorities keep their order.
pub open spec fn by_priority(s: Seq<NetworkInterface>) -> Seq<NetworkInterface>
    decreases s.len(),
{
    let k = min_index(s);
    if 0 <= k < s.len() {
        seq![s[k]] + by_priority(s.remove(k))
    } else {
        seq![]
    }
}

pub open spec fn derefs(v: Seq<&NetworkInterface>) -> Seq<NetworkInterface> {
    v.map_values(|x: &NetworkInterface| *x)
}

fn min_index_exec(s: &Vec<&NetworkInterface>) -> (k: usize)
    requires
        s.len() > 0,
    ensures
        k == min_index(derefs(s@)),
        k < s.len(),
{
    let ghost v = derefs(s@);
    let mut k: usize = 0;
    let mut j: usize = 1;
    while j < s.len()
        invariant
            1 <= j <= s.len(),
            k < j,
            v == derefs(s@),
            k == min_index(v.subrange(0, j as int)),
        decreases s.len() - j,
    {
        let ghost sub = v.subrange(0, j + 1);
        assert(sub.drop_last() =~= v.subrange(0, j as int));
        assert(sub[k as int] == v[k as int]);
        if s[j].priority < s[k].priority {
            k = j;
        }
        j = j + 1;
    }
    assert(v.subrange(0, s.len() as int) =~= v);
    k
}

impl Config {
    /// Checks, in order: an enabled interface exists, a destination exists,
    /// the interval, timeout and concurrency are non-zero, and interface
    /// names are distinct. Returns the first failed check.
    pub fn validate(&self) -> (r: Result<(), ConfigError>)
        ensures
            match r {
                Ok(()) => validation(*self) == Ok::<(), ConfigErrorView>(()),
                Err(e) => validation(*self) == Err::<(), ConfigErrorView>(e@),
            },
    {
        let mut any_enabled = false;
        let mut i: usize = 0;
        while i < self.interfaces.len()
            invariant
                i <= self.interfaces.len(),
                any_enabled == exists|j: int| 0 <= j < i && (#[trigger] self.interfaces[j]).enabled,
            decreases self.interfaces.len() - i,
        {
            if self.interfaces[i].enabled {
                any_enabled = true;
            }
            i = i + 1;
        }
        if !any_enabled {
            return Err(ConfigError::NoEnabledInterface);
        }
        if self.targets.len() == 0 {
            return Err(ConfigError::NoTargets);
        }
        if self.global.check_interval == 0 {
            return Err(ConfigError::ZeroCheckInterval);
        }
        if self.global.timeout == 0 {
            return Err(ConfigError::ZeroTimeout);
        }
        if self.global.concurrent_tests == 0 {
            return Err(ConfigError::ZeroConcurrency);
        }
        let ghost ifs = self.interfaces@;
        let mut i: usize = 0;
        while i < self.interfaces.len()
            invariant
                i <= self.interfaces.len(),
                ifs == self.interfaces@,
                first_repeat(ifs.subrange(0, i as int)) == i,
                exists|j: int| 0 <= j < ifs.len() && (#[trigger] self.interfaces[j]).enabled,
                self.targets.len() > 0,
                self.global.check_interval != 0,
                self.global.timeout != 0,
                self.global.concurrent_tests != 0,
            decreases self.interfaces.len() - i,
        {
            let ghost sub = ifs.subrange(0, i + 1);
            assert(sub.drop_last() =~= ifs.subrange(0, i as int));
            let mut j: usize = 0;
            let mut dup = false;
            while j < i
                invariant
                    j <= i < self.interfaces.len(),
                    ifs == self.interfaces@,
                    dup == exists|x: int| 0 <= x < j && ifs[x].name@ == ifs[i as int].name@,
                decreases i - j,
            {
                if str_eq(self.interfaces[j].name.as_str(), self.interfaces[i].name.as_str()) {
                    dup = true;
                }
                j = j + 1;
            }
            assert(dup == repeats_earlier(sub, i as int)) by {
                if dup {
                    let x = choose|x: int| 0 <= x < i && ifs[x].name@ == ifs[i as int].name@;
                    assert(sub[x] == ifs[x]);
                }
                if repeats_earlier(sub, i as int) {
                    let x = choose|x: int| 0 <= x < i && sub[x].name@ == #[trigger] sub[i as int].name@;
                    assert(sub[x] == ifs[x]);
                }
            }
            if dup {
                proof {
                    lemma_first_repeat_prefix(ifs, i + 1);
                }
                return Err(ConfigError::DuplicateInterface(self.interfaces[i].name.clone()));
            }
            i = i + 1;
        }
        assert(ifs.subrange(0, ifs.len() as int) =~= ifs);
        Ok(())
    }

    /// The enabled interfaces, in order.
    pub fn enabled_interfaces(&self) -> (r: Vec<&NetworkInterface>)
        ensures
            derefs(r@) == enabled_of(self.interfaces@),
    {
        let ghost ifs = self.interfaces@;
        let mut out: Vec<&NetworkInterface> = Vec::new();
        let mut i: usize = 0;
        while i < self.interfaces.len()
            invariant
                i <= self.interfaces.len(),
                ifs == self.interfaces@,
                derefs(out@) == enabled_of(ifs.subrange(0, i as int)),
            decreases self.interfaces.len() - i,
        {
            assert(ifs.subrange(0, i + 1).drop_last() =~= ifs.subrange(0, i as int));
            let ghost before = derefs(out@);
            if self.interfaces[i].enabled {
                out.push(&self.interfaces[i]);
                assert(derefs(out@) =~= before.push(ifs[i as int]));
            }
            i = i + 1;
        }
        assert(ifs.subrange(0, ifs.len() as int) =~= ifs);
        out
    }

    /// The enabled interfaces by ascending priority value; equal priorities
    /// keep their order.
    pub fn sorted_interfaces(&self) -> (r: Vec<&NetworkInterface>)
        ensures
            derefs(r@) == by_priority(enabled_of(self.interfaces@)),
    {
        let mut pool = self.enabled_interfaces();
        let ghost orig = derefs(pool@);
        let mut out: Vec<&NetworkInterface> = Vec::new();
        while pool.len() > 0
            invariant
                derefs(out@) + by_priority(derefs(pool@)) == by_priority(orig),
            decreases pool.len(),
        {
            let ghost v = derefs(pool@);
            let k = min_index_exec(&pool);
            let item = pool.remove(k);
            assert(derefs(pool@) =~= v.remove(k as int));
            let ghost before = derefs(out@);
            out.push(item);
            assert(derefs(out@) =~= before.push(*item));
            assert(by_priority(v) == seq![v[k as int]] + by_priority(v.remove(k as int)));
            assert(derefs(out@) + by_priority(derefs(pool@)) =~= before + by_priority(v));
        }
        assert(by_priority(derefs(pool@)) =~= Seq::<NetworkInterface>::empty());
        assert(derefs(out@) =~= derefs(out@) + by_priority(derefs(pool@)));
        out
    }
}

proof fn lemma_first_repeat_prefix(ifs: Seq<NetworkInterface>, j: int)
    requires
        0 <= j <= ifs.len(),
        first_repeat(ifs.subrange(0, j)) < j,
    ensures
        first_repeat(ifs) == first_repeat(ifs.subrange(0, j)),
    decreases ifs.len() - j,
{
    if j < ifs.len() {
        assert(ifs.subrange(0, j + 1).drop_last() =~= ifs.subrange(0, j));
        lemma_first_repeat_prefix(ifs, j + 1);
    } else {
        assert(ifs.subrange(0, j) =~= ifs);
    }
}

} // verus!
