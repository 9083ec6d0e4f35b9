//! Route committer logic: reading the routing configuration dump, planning
//! the changes that bind monitored destinations to an interface, and checking
//! the result.
use vstd::prelude::*;

use crate::text::{
    contains, has_prefix, has_substring, owned, split_at_char, split_on, starts_with, str_eq, strip,
    strip_both, strip_prefixes, strip_suffixes, trim_prefixes, trim_suffixes, views, Strip,
};

verus! {

/// A route section of the persisted configuration.
#[derive(Clone, Debug)]
pub struct RouteEntry {
    pub section: String,
    pub target: String,
    pub interface: String,
}

pub struct RouteView {
    pub section: Seq<char>,
    pub target: Seq<char>,
    pub interface: Seq<char>,
}

impl View for RouteEntry {
    type V = RouteView;

    open spec fn view(&self) -> RouteView {
        RouteView { section: self.section@, target: self.target@, interface: self.interface@ }
    }
}

pub open spec fn route_views(v: Seq<RouteEntry>) -> Seq<RouteView> {
    v.map_values(|r: RouteEntry| r@)
}

/// One change to the routing configuration.
#[derive(Clone, Debug)]
pub enum RouteAction {
    /// Bind an existing route section to another interface.
    SetInterface { section: String, interface: String },
    /// Create a route section for a destination.
    Create { section: String, target: String, interface: String },
}

pub enum ActionView {
    SetInterface { section: Seq<char>, interface: Seq<char> },
    Create { section: Seq<char>, target: Seq<char>, interface: Seq<char> },
}

impl View for RouteAction {
    type V = ActionView;

    open spec fn view(&self) -> ActionView {
        match self {
            RouteAction::SetInterface { section, interface } => ActionView::SetInterface {
                section: section@,
                interface: interface@,
            },
            RouteAction::Create { section, target, interface } => ActionView::Create {
                section: section@,
                target: target@,
                interface: interface@,
            },
        }
    }
}

pub open spec fn action_views(v: Seq<RouteAction>) -> Seq<ActionView> {
    v.map_values(|a: RouteAction| a@)
}

/// The kernel device name of a logical interface: without its PPP prefixes.
pub open spec fn physical_name(logical: Seq<char>) -> Seq<char> {
    strip_prefixes(logical, "pppoe-"@)
}

/// The value of a `key=value` line: the text after the first `=` (up to a
/// second one), trimmed, then stripped of single and then double quotes.
pub open spec fn uci_value(line: Seq<char>) -> Option<Seq<char>> {
    let parts = split_on(line, '=');
    if parts.len() > 1 {
        Some(
            strip_both(
                strip_both(strip_both(parts[1], Strip::Space), Strip::Char('\'')),
                Strip::Char('"'),
            ),
        )
    } else {
        None
    }
}

/// A destination address without its `/32` suffixes.
pub open spec fn base_target(t: Seq<char>) -> Seq<char> {
    strip_suffixes(t, "/32"@)
}

/// The character that a section name uses in place of `c`.
pub open spec fn section_char(c: char) -> char {
    if c == '/' || c == '.' || c == ':' {
        '_'
    } else {
        c
    }
}

/// The section name of the route created for destination `t`.
pub open spec fn section_name(t: Seq<char>) -> Seq<char> {
    "route_"@ + t.map_values(|c: char| section_char(c))
}

/// Whether a section was created by this system.
pub open spec fn is_managed(section: Seq<char>) -> bool {
    starts_with(section, "route_"@)
}

/// Whether every managed route is bound to `physical`.
pub open spec fn routes_bound_to(routes: Seq<RouteView>, physical: Seq<char>) -> bool {
    forall|i: int|
        0 <= i < routes.len() && is_managed(#[trigger] routes[i].section) ==> routes[i].interface
            == physical
}

/// Index of the first route whose destination matches `t`; `routes.len()`
/// when there is none.
pub open spec fn first_match(routes: Seq<RouteView>, t: Seq<char>) -> int
    decreases routes.len(),
{
    if routes.len() == 0 {
        0
    } else {
        let k = first_match(routes.drop_last(), t);
        if k < routes.len() - 1 {
            k
        } else if base_target(routes.last().target) == base_target(t) {
            routes.len() - 1
        } else {
            routes.len() as int
        }
    }
}

/// The change, if any, that destination `t` needs.
pub open spec fn action_for(routes: Seq<RouteView>, t: Seq<char>, physical: Seq<char>) -> Seq<
    ActionView,
> {
    let k = first_match(routes, t);
    if 0 <= k < routes.len() {
        if routes[k].interface == physical {
            seq![]
        } else {
            seq![ActionView::SetInterface { section: routes[k].section, interface: physical }]
        }
    } else {
        seq![ActionView::Create { section: section_name(t), target: t, interface: physical }]
    }
}

/// The changes that bind every destination of `targets` to `physical`.
pub open spec fn plan_spec(routes: Seq<RouteView>, targets: Seq<Seq<char>>, physical: Seq<char>) -> Seq<
    ActionView,
>
    decreases targets.len(),
{
    if targets.len() == 0 {
        seq![]
    } else {
        plan_spec(routes, targets.drop_last(), physical) + action_for(
            routes,
            targets.last(),
            physical,
        )
    }
}

/// Whether a policy rule priority lies in the band this system owns.
pub open spec fn owned_priority(p: u32) -> bool {
    100 <= p <= 999
}

pub open spec fn is_digit(c: char) -> bool {
    '0' <= c <= '9'
}

pub open spec fn all_digits(d: Seq<char>) -> bool {
    forall|i: int| 0 <= i < d.len() ==> is_digit(#[trigger] d[i])
}

/// `s` without one leading `+`.
pub open spec fn unsigned_part(s: Seq<char>) -> Seq<char> {
    if s.len() > 0 && s[0] == '+' {
        s.drop_first()
    } else {
        s
    }
}

pub open spec fn digits_value(d: Seq<char>) -> nat
    decreases d.len(),
{
    if d.len() == 0 {
        0
    } else {
        digits_value(d.drop_last()) * 10 + (d.last() as nat - '0' as nat) as nat
    }
}

/// What `u32::from_str` accepts: an optional `+`, then decimal digits whose
/// value fits.
pub open spec fn parse_u32(s: Seq<char>) -> Option<u32> {
    let d = unsigned_part(s);
    if d.len() > 0 && all_digits(d) && digits_value(d) <= u32::MAX {
        Some(digits_value(d) as u32)
    } else {
        None
    }
}

/// The priority of an `ip rule` line: the trimmed text before the first `:`.
pub open spec fn rule_priority(rule: Seq<char>) -> Option<u32> {
    parse_u32(strip_both(split_on(rule, ':')[0], Strip::Space))
}

pub(crate) proof fn lemma_digits_value_grows(d: Seq<char>, k: int)
    requires
        0 <= k <= d.len(),
        all_digits(d),
    ensures
        digits_value(d.subrange(0, k)) <= digits_value(d),
    decreases d.len() - k,
{
    if k < d.len() {
        lemma_digits_value_grows(d, k + 1);
        assert(d.subrange(0, k + 1).drop_last() =~= d.subrange(0, k));
    } else {
        assert(d.subrange(0, k) =~= d);
    }
}

/// Parses a decimal `u32` as `u32::from_str` does.
pub fn parse_decimal_u32(s: &str) -> (r: Option<u32>)
    ensures
        r == parse_u32(s@),
{
    let n = s.unicode_len();
    let mut i: usize = 0;
    if n > 0 && s.get_char(0) == '+' {
        i = 1;
    }
    let ghost d = s@.subrange(i as int, n as int);
    assert(d =~= unsigned_part(s@));
    if i == n {
        return None;
    }
    let start = i;
    let mut acc: u64 = 0;
    while i < n
        invariant
            n == s@.len(),
            start <= i <= n,
            d == s@.subrange(start as int, n as int),
            d == unsigned_part(s@),
            forall|j: int| 0 <= j < i - start ==> is_digit(#[trigger] d[j]),
            acc == digits_value(d.subrange(0, i - start)),
            acc <= u32::MAX,
        decreases n - i,
    {
        let c = s.get_char(i);
        assert(d[i - start] == c);
        if !('0' <= c && c <= '9') {
            assert(!is_digit(d[i - start]));
            return None;
        }
        assert(d.subrange(0, i - start + 1).drop_last() =~= d.subrange(0, i - start));
        assert(d.subrange(0, i - start + 1).last() == c);
        let next = acc * 10 + (c as u64 - '0' as u64);
        i = i + 1;
        if next > u32::MAX as u64 {
            proof {
                if all_digits(d) {
                    lemma_digits_value_grows(d, i - start);
                }
            }
            return None;
        }
        acc = next;
    }
    assert(d.subrange(0, n - start) =~= d);
    Some(acc as u32)
}

/// Builds `network.<section>.<field>`, the key of an option of a section.
pub fn option_key(section: &str, field: &str) -> (r: String)
    ensures
        r@ == "network."@ + section@ + "."@ + field@,
{
    let mut k = owned("network.");
    k.append(section);
    k.append(".");
    k.append(field);
    k
}

/// The name of the route section created for destination `target`.
pub fn route_section_name(target: &str) -> (r: String)
    ensures
        r@ == section_name(target@),
{
    let mut name = owned("route_");
    let n = target.unicode_len();
    let ghost base = name@;
    let mut i: usize = 0;
    while i < n
        invariant
            n == target@.len(),
            i <= n,
            base == "route_"@,
            name@ == base + target@.subrange(0, i as int).map_values(|c: char| section_char(c)),
        decreases n - i,
    {
        let c = target.get_char(i);
        if c == '/' || c == '.' || c == ':' {
            name.append("_");
            proof {
                reveal_strlit("_");
            }
        } else {
            name.append(target.substring_char(i, i + 1));
        }
        assert(target@.subrange(0, i + 1).map_values(|c: char| section_char(c)) =~= target@.subrange(
            0,
            i as int,
        ).map_values(|c: char| section_char(c)).push(section_char(c)));
        i = i + 1;
    }
    assert(target@.subrange(0, n as int) =~= target@);
    name
}

/// Whether every managed route (section named `route_...`) is bound to the
/// physical device of `logical`; true when there is none.
pub fn verify_routes(routes: &[RouteEntry], logical: &str) -> (r: bool)
    ensures
        r == routes_bound_to(route_views(routes@), physical_name(logical@)),
{
    let physical = OpenWrtManager::convert_to_physical_interface(logical);
    let ghost rv = route_views(routes@);
    let mut i: usize = 0;
    while i < routes.len()
        invariant
            i <= routes.len(),
            rv == route_views(routes@),
            physical@ == physical_name(logical@),
            forall|j: int|
                0 <= j < i && is_managed(#[trigger] rv[j].section) ==> rv[j].interface
                    == physical@,
        decreases routes.len() - i,
    {
        assert(rv[i as int] == routes@[i as int]@);
        if has_prefix(routes[i].section.as_str(), "route_") && !str_eq(
            routes[i].interface.as_str(),
            physical.as_str(),
        ) {
            assert(is_managed(rv[i as int].section) && rv[i as int].interface != physical@);
            return false;
        }
        i = i + 1;
    }
    true
}

fn find_route(routes: &[RouteEntry], target: &str) -> (r: usize)
    ensures
        r as int == first_match(route_views(routes@), target@),
        r <= routes.len(),
{
    let ghost rv = route_views(routes@);
    let base = trim_suffixes(target, "/32");
    let mut i: usize = 0;
    while i < routes.len()
        invariant
            i <= routes.len(),
            rv == route_views(routes@),
            base@ == base_target(target@),
            first_match(rv.subrange(0, i as int), target@) == i,
        decreases routes.len() - i,
    {
        assert(rv.subrange(0, i + 1).drop_last() =~= rv.subrange(0, i as int));
        assert(rv[i as int] == routes@[i as int]@);
        if str_eq(trim_suffixes(routes[i].target.as_str(), "/32"), base) {
            proof {
                lemma_first_match_prefix(rv, target@, i + 1);
            }
            return i;
        }
        i = i + 1;
    }
    assert(rv.subrange(0, routes.len() as int) =~= rv);
    i
}

proof fn lemma_first_match_prefix(routes: Seq<RouteView>, t: Seq<char>, j: int)
    requires
        0 <= j <= routes.len(),
        first_match(routes.subrange(0, j), t) < j,
    ensures
        first_match(routes, t) == first_match(routes.subrange(0, j), t),
    decreases routes.len() - j,
{
    if j < routes.len() {
        assert(routes.subrange(0, j + 1).drop_last() =~= routes.subrange(0, j));
        lemma_first_match_prefix(routes, t, j + 1);
    } else {
        assert(routes.subrange(0, j) =~= routes);
    }
}

/// Plans the changes that bind each destination of `targets` to the
/// physical device of `logical`: a destination whose route (matched without
/// `/32` suffixes) is bound elsewhere is rebound; one without a route gets a
/// new section; one already bound needs nothing.
pub fn plan_static_routes(existing: &[RouteEntry], targets: &[String], logical: &str) -> (r: Vec<
    RouteAction,
>)
    ensures
        action_views(r@) == plan_spec(
            route_views(existing@),
            views(targets@),
            physical_name(logical@),
        ),
{
    let physical = OpenWrtManager::convert_to_physical_interface(logical);
    let ghost rv = route_views(existing@);
    let ghost tv = views(targets@);
    let mut actions: Vec<RouteAction> = Vec::new();
    let mut i: usize = 0;
    while i < targets.len()
        invariant
            i <= targets.len(),
            rv == route_views(existing@),
            tv == views(targets@),
            physical@ == physical_name(logical@),
            action_views(actions@) == plan_spec(rv, tv.subrange(0, i as int), physical@),
        decreases targets.len() - i,
    {
        assert(tv.subrange(0, i + 1).drop_last() =~= tv.subrange(0, i as int));
        assert(tv[i as int] == targets@[i as int]@);
        let target = targets[i].as_str();
        let k = find_route(existing, target);
        let ghost before = action_views(actions@);
        if k < existing.len() {
            assert(rv[k as int] == existing@[k as int]@);
            if !str_eq(existing[k].interface.as_str(), physical.as_str()) {
                actions.push(
                    RouteAction::SetInterface {
                        section: existing[k].section.clone(),
                        interface: physical.clone(),
                    },
                );
                assert(action_views(actions@) =~= before + action_for(rv, tv[i as int], physical@));
            } else {
                assert(action_views(actions@) =~= before + action_for(rv, tv[i as int], physical@));
            }
        } else {
            actions.push(
                RouteAction::Create {
                    section: route_section_name(target),
                    target: owned(target),
                    interface: physical.clone(),
                },
            );
            assert(action_views(actions@) =~= before + action_for(rv, tv[i as int], physical@));
        }
        i = i + 1;
    }
    assert(tv.subrange(0, targets.len() as int) =~= tv);
    actions
}

/// Tracks the interface that the routing configuration was last switched to.
pub struct OpenWrtManager {
    current_interface: Option<String>,
    rule_marker: String,
}

impl OpenWrtManager {
    /// A manager that has not switched to any interface yet.
    pub fn new() -> (r: OpenWrtManager)
        ensures
            r.current() is None,
            r.marker() == "routes-monitor"@,
    {
        OpenWrtManager { current_interface: None, rule_marker: owned("routes-monitor") }
    }

    pub closed spec fn marker(&self) -> Seq<char> {
        self.rule_marker@
    }

    pub closed spec fn current(&self) -> Option<Seq<char>> {
        match self.current_interface {
            Some(c) => Some(c@),
            None => None,
        }
    }

    /// The interface last switched to, if any.
    pub fn current_interface(&self) -> (r: Option<&str>)
        ensures
            match r {
                Some(c) => self.current() == Some(c@),
                None => self.current() is None,
            },
    {
        match &self.current_interface {
            Some(c) => Some(c.as_str()),
            None => None,
        }
    }

    /// The marker that names what this system creates.
    pub fn rule_marker(&self) -> (r: &str)
        ensures
            r@ == self.marker(),
    {
        self.rule_marker.as_str()
    }

    /// Whether switching to `name` has anything to do: false when it is
    /// already the current interface.
    pub fn needs_switch(&self, name: &str) -> (r: bool)
        ensures
            r == (self.current() != Some(name@)),
    {
        match &self.current_interface {
            Some(c) => !str_eq(c.as_str(), name),
            None => true,
        }
    }

    /// Records that the routing configuration now points at `name`.
    pub fn mark_switched(&mut self, name: &str)
        ensures
            final(self).current() == Some(name@),
            final(self).marker() == old(self).marker(),
    {
        self.current_interface = Some(owned(name));
    }

    /// The kernel device name of a logical interface (`pppoe-wan` -> `wan`).
    pub fn convert_to_physical_interface(logical_name: &str) -> (r: String)
        ensures
            r@ == physical_name(logical_name@),
    {
        owned(trim_prefixes(logical_name, "pppoe-"))
    }

    /// The value of a configuration line such as `network.r.interface='wan'`.
    pub fn extract_uci_value(line: &str) -> (r: Option<String>)
        ensures
            match r {
                Some(v) => uci_value(line@) == Some(v@),
                None => uci_value(line@) is None,
            },
    {
        let parts = split_at_char(line, '=');
        if parts.len() > 1 {
            assert(views(parts@)[1] == parts@[1]@);
            let v = strip(
                strip(strip(parts[1].as_str(), Strip::Space), Strip::Char('\'')),
                Strip::Char('"'),
            );
            Some(owned(v))
        } else {
            None
        }
    }

    /// The priority of an `ip rule` line such as `100: from all lookup 100`.
    pub fn extract_priority(&self, rule: &str) -> (r: Option<u32>)
        ensures
            r == rule_priority(rule@),
    {
        let parts = split_at_char(rule, ':');
        assert(views(parts@)[0] == parts@[0]@);
        parse_decimal_u32(strip(parts[0].as_str(), Strip::Space))
    }

    /// The priorities of the rules in `rules` that lie in the band this
    /// system owns, in order; these are the rules to delete on cleanup.
    pub fn owned_rule_priorities(&self, rules: &[String]) -> (r: Vec<u32>)
        ensures
            r@ == owned_priorities(views(rules@)),
    {
        let ghost rv = views(rules@);
        let mut out: Vec<u32> = Vec::new();
        let mut i: usize = 0;
        while i < rules.len()
            invariant
                i <= rules.len(),
                rv == views(rules@),
                out@ == owned_priorities(rv.subrange(0, i as int)),
            decreases rules.len() - i,
        {
            assert(rv.subrange(0, i + 1).drop_last() =~= rv.subrange(0, i as int));
            assert(rv[i as int] == rules@[i as int]@);
            match self.extract_priority(rules[i].as_str()) {
                Some(p) => {
                    if 100 <= p && p <= 999 {
                        out.push(p);
                    }
                },
                None => {},
            }
            i = i + 1;
        }
        assert(rv.subrange(0, rules.len() as int) =~= rv);
        out
    }
}

/// The owned-band priorities of the rule lines `rules`, in order.
pub open spec fn owned_priorities(rules: Seq<Seq<char>>) -> Seq<u32>
    decreases rules.len(),
{
    if rules.len() == 0 {
        seq![]
    } else {
        let p = owned_priorities(rules.drop_last());
        match rule_priority(rules.last()) {
            Some(x) => if owned_priority(x) {
                p.push(x)
            } else {
                p
            },
            None => p,
        }
    }
}

/// A route section while the dump is read: its options so far.
pub struct DraftView {
    pub section: Seq<char>,
    pub target: Option<Seq<char>>,
    pub interface: Option<Seq<char>>,
}

pub open spec fn opt_view(o: Option<String>) -> Option<Seq<char>> {
    match o {
        Some(s) => Some(s@),
        None => None,
    }
}

/// The section declared by a `network.<section>=route` line.
pub open spec fn declared_section(line: Seq<char>) -> Seq<char> {
    strip_prefixes(split_on(line, '=')[0], "network."@)
}

pub open spec fn option_key_spec(section: Seq<char>, field: Seq<char>) -> Seq<char> {
    "network."@ + section + "."@ + field
}

/// A draft after an option line: the line sets its target or interface when
/// it begins with that option's key.
pub open spec fn read_option(d: DraftView, line: Seq<char>) -> DraftView {
    if starts_with(line, option_key_spec(d.section, "target"@)) {
        match uci_value(line) {
            Some(v) => DraftView { section: d.section, target: Some(v), interface: d.interface },
            None => d,
        }
    } else if starts_with(line, option_key_spec(d.section, "interface"@)) {
        match uci_value(line) {
            Some(v) => DraftView { section: d.section, target: d.target, interface: Some(v) },
            None => d,
        }
    } else {
        d
    }
}

/// Index of the first draft of section `sec`; `ds.len()` when there is none.
pub open spec fn section_index(ds: Seq<DraftView>, sec: Seq<char>) -> int
    decreases ds.len(),
{
    if ds.len() == 0 {
        0
    } else {
        let k = section_index(ds.drop_last(), sec);
        if k < ds.len() - 1 {
            k
        } else if ds.last().section == sec {
            ds.len() - 1
        } else {
            ds.len() as int
        }
    }
}

/// The drafts after one more line: a `=route` line (re)declares a section
/// with no options; any other line is read as an option of every draft.
pub open spec fn read_line(ds: Seq<DraftView>, line: Seq<char>) -> Seq<DraftView> {
    if contains(line, "=route"@) {
        let sec = declared_section(line);
        let k = section_index(ds, sec);
        let fresh = DraftView { section: sec, target: None, interface: None };
        if 0 <= k < ds.len() {
            ds.update(k, fresh)
        } else {
            ds.push(fresh)
        }
    } else {
        ds.map_values(|d: DraftView| read_option(d, line))
    }
}

pub open spec fn read_lines(lines: Seq<Seq<char>>) -> Seq<DraftView>
    decreases lines.len(),
{
    if lines.len() == 0 {
        seq![]
    } else {
        read_line(read_lines(lines.drop_last()), lines.last())
    }
}

/// The drafts that have both a target and an interface, as routes.
pub open spec fn complete_routes(ds: Seq<DraftView>) -> Seq<RouteView>
    decreases ds.len(),
{
    if ds.len() == 0 {
        seq![]
    } else {
        let p = complete_routes(ds.drop_last());
        let d = ds.last();
        if d.target is Some && d.interface is Some {
            p.push(RouteView { section: d.section, target: d.target->0, interface: d.interface->0 })
        } else {
            p
        }
    }
}

/// The route sections of a `uci show network` dump, in order of declaration.
pub open spec fn parse_routes(text: Seq<char>) -> Seq<RouteView> {
    complete_routes(read_lines(split_on(text, '\n')))
}

pub open spec fn drafts_of(
    sections: Seq<String>,
    targets: Seq<Option<String>>,
    interfaces: Seq<Option<String>>,
) -> Seq<DraftView> {
    Seq::new(
        sections.len(),
        |j: int|
            DraftView {
                section: sections[j]@,
                target: opt_view(targets[j]),
                interface: opt_view(interfaces[j]),
            },
    )
}

fn find_section(sections: &Vec<String>, sec: &str, ghost_ds: Ghost<Seq<DraftView>>) -> (r: usize)
    requires
        ghost_ds@.len() == sections.len(),
        forall|j: int| 0 <= j < sections.len() ==> (#[trigger] ghost_ds@[j]).section == sections[j]@,
    ensures
        r as int == section_index(ghost_ds@, sec@),
        r <= sections.len(),
{
    let ghost ds = ghost_ds@;
    let mut i: usize = 0;
    while i < sections.len()
        invariant
            i <= sections.len(),
            ds == ghost_ds@,
            ds.len() == sections.len(),
            forall|j: int| 0 <= j < sections.len() ==> (#[trigger] ds[j]).section == sections[j]@,
            section_index(ds.subrange(0, i as int), sec@) == i,
        decreases sections.len() - i,
    {
        assert(ds.subrange(0, i + 1).drop_last() =~= ds.subrange(0, i as int));
        assert(ds[i as int].section == sections[i as int]@);
        if str_eq(sections[i].as_str(), sec) {
            proof {
                assert(ds.subrange(0, i + 1).last() == ds[i as int]);
                assert(section_index(ds.subrange(0, i + 1), sec@) == i);
                lemma_section_index_prefix(ds, sec@, i + 1);
            }
            return i;
        }
        i = i + 1;
    }
    assert(ds.subrange(0, sections.len() as int) =~= ds);
    i
}

proof fn lemma_section_index_prefix(ds: Seq<DraftView>, sec: Seq<char>, j: int)
    requires
        0 <= j <= ds.len(),
        section_index(ds.subrange(0, j), sec) < j,
    ensures
        section_index(ds, sec) == section_index(ds.subrange(0, j), sec),
    decreases ds.len() - j,
{
    if j < ds.len() {
        assert(ds.subrange(0, j + 1).drop_last() =~= ds.subrange(0, j));
        lemma_section_index_prefix(ds, sec, j + 1);
    } else {
        assert(ds.subrange(0, j) =~= ds);
    }
}

/// Reads the route sections of a `uci show network` dump. A section is
/// declared by `network.<name>=route` (or `network.@route[<n>]=route`), its
/// options by `network.<name>.target=...` and `network.<name>.interface=...`;
/// sections that lack either option are left out.
pub fn parse_uci_routes(text: &str) -> (r: Vec<RouteEntry>)
    ensures
        route_views(r@) == parse_routes(text@),
{
    let lines = split_at_char(text, '\n');
    let ghost lv = views(lines@);
    let mut sections: Vec<String> = Vec::new();
    let mut targets: Vec<Option<String>> = Vec::new();
    let mut interfaces: Vec<Option<String>> = Vec::new();
    let mut i: usize = 0;
    assert(drafts_of(sections@, targets@, interfaces@) =~= read_lines(lv.subrange(0, 0)));
    while i < lines.len()
        invariant
            i <= lines.len(),
            lv == views(lines@),
            lv == split_on(text@, '\n'),
            sections.len() == targets.len(),
            sections.len() == interfaces.len(),
            drafts_of(sections@, targets@, interfaces@) == read_lines(lv.subrange(0, i as int)),
        decreases lines.len() - i,
    {
        assert(lv.subrange(0, i + 1).drop_last() =~= lv.subrange(0, i as int));
        assert(lv[i as int] == lines@[i as int]@);
        let line = lines[i].as_str();
        let ghost ds = drafts_of(sections@, targets@, interfaces@);
        if has_substring(line, "=route") {
            let parts = split_at_char(line, '=');
            assert(views(parts@)[0] == parts@[0]@);
            let sec = trim_prefixes(parts[0].as_str(), "network.");
            let k = find_section(&sections, sec, Ghost(ds));
            if k < sections.len() {
                sections.set(k, owned(sec));
                targets.set(k, None);
                interfaces.set(k, None);
            } else {
                sections.push(owned(sec));
                targets.push(None);
                interfaces.push(None);
            }
            assert(drafts_of(sections@, targets@, interfaces@) =~= read_line(ds, lv[i as int]));
        } else {
            let mut j: usize = 0;
            while j < sections.len()
                invariant
                    j <= sections.len(),
                    sections.len() == targets.len(),
                    sections.len() == interfaces.len(),
                    ds.len() == sections.len(),
                    line@ == lv[i as int],
                    forall|x: int|
                        0 <= x < sections.len() ==> sections[x]@ == (#[trigger] ds[x]).section,
                    forall|x: int|
                        0 <= x < j ==> opt_view(#[trigger] targets[x]) == read_option(
                            ds[x],
                            line@,
                        ).target && opt_view(interfaces[x]) == read_option(ds[x], line@).interface,
                    forall|x: int|
                        j <= x < sections.len() ==> opt_view(#[trigger] targets[x]) == ds[x].target
                            && opt_view(interfaces[x]) == ds[x].interface,
                decreases sections.len() - j,
            {
                let tkey = option_key(sections[j].as_str(), "target");
                if has_prefix(line, tkey.as_str()) {
                    match OpenWrtManager::extract_uci_value(line) {
                        Some(v) => {
                            targets.set(j, Some(v));
                        },
                        None => {},
                    }
                } else {
                    let ikey = option_key(sections[j].as_str(), "interface");
                    if has_prefix(line, ikey.as_str()) {
                        match OpenWrtManager::extract_uci_value(line) {
                            Some(v) => {
                                interfaces.set(j, Some(v));
                            },
                            None => {},
                        }
                    }
                }
                j = j + 1;
            }
            assert(drafts_of(sections@, targets@, interfaces@) =~= read_line(ds, lv[i as int]));
        }
        i = i + 1;
    }
    assert(lv.subrange(0, lines.len() as int) =~= lv);
    let ghost ds = drafts_of(sections@, targets@, interfaces@);
    let mut routes: Vec<RouteEntry> = Vec::new();
    let mut k: usize = 0;
    while k < sections.len()
        invariant
            k <= sections.len(),
            sections.len() == targets.len(),
            sections.len() == interfaces.len(),
            ds == drafts_of(sections@, targets@, interfaces@),
            route_views(routes@) == complete_routes(ds.subrange(0, k as int)),
        decreases sections.len() - k,
    {
        assert(ds.subrange(0, k + 1).drop_last() =~= ds.subrange(0, k as int));
        let ghost before = route_views(routes@);
        match (&targets[k], &interfaces[k]) {
            (Some(t), Some(f)) => {
                routes.push(
                    RouteEntry { section: sections[k].clone(), target: t.clone(), interface: f.clone() },
                );
                assert(route_views(routes@) =~= complete_routes(ds.subrange(0, k + 1)));
            },
            _ => {
                assert(route_views(routes@) =~= complete_routes(ds.subrange(0, k + 1)));
            },
        }
        k = k + 1;
    }
    assert(ds.subrange(0, sections.len() as int) =~= ds);
    routes
}

/// With no managed route to check, verification succeeds.
pub proof fn lemma_verify_without_managed_routes(routes: Seq<RouteView>, physical: Seq<char>)
    requires
        forall|i: int| 0 <= i < routes.len() ==> !is_managed(#[trigger] routes[i].section),
    ensures
        routes_bound_to(routes, physical),
{
}

/// Whether some route has section name `section`.
pub open spec fn has_section(routes: Seq<RouteView>, section: Seq<char>) -> bool {
    exists|i: int| 0 <= i < routes.len() && (#[trigger] routes[i]).section == section
}

/// The route table after one change: setting an option applies to every
/// section of that name; creating a section that exists overwrites its
/// options, else appends it.
pub open spec fn apply_action(routes: Seq<RouteView>, a: ActionView) -> Seq<RouteView> {
    match a {
        ActionView::SetInterface { section, interface } => routes.map_values(
            |r: RouteView|
                if r.section == section {
                    RouteView { section: r.section, target: r.target, interface }
                } else {
                    r
                },
        ),
        ActionView::Create { section, target, interface } => if has_section(routes, section) {
            routes.map_values(
                |r: RouteView|
                    if r.section == section {
                        RouteView { section, target, interface }
                    } else {
                        r
                    },
            )
        } else {
            routes.push(RouteView { section, target, interface })
        },
    }
}

/// The route table after the changes `acts`, in order.
pub open spec fn apply_actions(routes: Seq<RouteView>, acts: Seq<ActionView>) -> Seq<RouteView>
    decreases acts.len(),
{
    if acts.len() == 0 {
        routes
    } else {
        apply_action(apply_actions(routes, acts.drop_last()), acts.last())
    }
}

proof fn lemma_first_match_spec(rs: Seq<RouteView>, t: Seq<char>)
    ensures
        0 <= first_match(rs, t) <= rs.len(),
        first_match(rs, t) < rs.len() ==> base_target(rs[first_match(rs, t)].target)
            == base_target(t),
        forall|i: int|
            0 <= i < first_match(rs, t) ==> base_target(#[trigger] rs[i].target) != base_target(t),
    decreases rs.len(),
{
    if rs.len() > 0 {
        let d = rs.drop_last();
        lemma_first_match_spec(d, t);
        assert forall|i: int| 0 <= i < first_match(rs, t) implies base_target(
            #[trigger] rs[i].target,
        ) != base_target(t) by {
            if i < d.len() {
                assert(d[i] == rs[i]);
            }
        }
        if first_match(d, t) < d.len() {
            assert(d[first_match(d, t)] == rs[first_match(d, t)]);
        }
    }
}

/// Shape of the planned changes: every rebinding names a section of
/// `routes`, every creation a destination without a route; all bind to
/// `physical`.
pub open spec fn planned_action(
    routes: Seq<RouteView>,
    targets: Seq<Seq<char>>,
    physical: Seq<char>,
    a: ActionView,
) -> bool {
    match a {
        ActionView::SetInterface { section, interface } => interface == physical && exists|m: int|
            0 <= m < routes.len() && (#[trigger] routes[m]).section == section,
        ActionView::Create { section, target, interface } => interface == physical && exists|j: int|
            0 <= j < targets.len() && #[trigger] targets[j] == target && first_match(routes, target)
                >= routes.len() && section == section_name(target),
    }
}

proof fn lemma_plan_shape(routes: Seq<RouteView>, targets: Seq<Seq<char>>, physical: Seq<char>)
    ensures
        forall|p: int|
            0 <= p < plan_spec(routes, targets, physical).len() ==> planned_action(
                routes,
                targets,
                physical,
                #[trigger] plan_spec(routes, targets, physical)[p],
            ),
        forall|j: int|
            0 <= j < targets.len() && action_for(routes, #[trigger] targets[j], physical).len() == 1
                ==> exists|p: int|
                0 <= p < plan_spec(routes, targets, physical).len() && plan_spec(
                    routes,
                    targets,
                    physical,
                )[p] == action_for(routes, targets[j], physical)[0],
    decreases targets.len(),
{
    if targets.len() > 0 {
        let d = targets.drop_last();
        lemma_plan_shape(routes, d, physical);
        lemma_first_match_spec(routes, targets.last());
        let pd = plan_spec(routes, d, physical);
        let pl = plan_spec(routes, targets, physical);
        let last = action_for(routes, targets.last(), physical);
        assert(pl == pd + last);
        assert forall|p: int| 0 <= p < pl.len() implies planned_action(
            routes,
            targets,
            physical,
            #[trigger] pl[p],
        ) by {
            if p < pd.len() {
                assert(pl[p] == pd[p]);
                assert(planned_action(routes, d, physical, pd[p]));
                match pd[p] {
                    ActionView::SetInterface { .. } => {},
                    ActionView::Create { section, target, interface } => {
                        let j = choose|j: int|
                            0 <= j < d.len() && #[trigger] d[j] == target && first_match(
                                routes,
                                target,
                            ) >= routes.len() && section == section_name(target);
                        assert(targets[j] == d[j]);
                    },
                }
            } else {
                assert(pl[p] == last[p - pd.len()]);
                let k = first_match(routes, targets.last());
                if k < routes.len() {
                    assert(routes[k].section == routes[k].section);
                } else {
                    assert(targets[targets.len() - 1] == targets.last());
                }
            }
        }
        assert forall|j: int|
            0 <= j < targets.len() && action_for(routes, #[trigger] targets[j], physical).len()
                == 1 implies exists|p: int|
            0 <= p < pl.len() && pl[p] == action_for(routes, targets[j], physical)[0] by {
            if j < d.len() {
                assert(d[j] == targets[j]);
                let p = choose|p: int| 0 <= p < pd.len() && pd[p] == action_for(routes, d[j], physical)[0];
                assert(pl[p] == pd[p]);
            } else {
                assert(pl[pd.len() as int] == last[0]);
            }
        }
    }
}

/// No route of `routes` bears the name that would be created for a
/// destination of `targets` that has no route.
pub open spec fn creation_names_free(routes: Seq<RouteView>, targets: Seq<Seq<char>>) -> bool {
    forall|i: int, j: int|
        0 <= i < routes.len() && 0 <= j < targets.len() && first_match(routes, targets[j])
            >= routes.len() ==> (#[trigger] routes[i]).section != section_name(
            #[trigger] targets[j],
        )
}

/// Two destinations of `targets` without a route share a created name only
/// when they match.
pub open spec fn creation_names_distinct(routes: Seq<RouteView>, targets: Seq<Seq<char>>) -> bool {
    forall|i: int, j: int|
        0 <= i < targets.len() && 0 <= j < targets.len() && first_match(routes, targets[i])
            >= routes.len() && first_match(routes, targets[j]) >= routes.len() && section_name(
            #[trigger] targets[i],
        ) == section_name(#[trigger] targets[j]) ==> base_target(targets[i]) == base_target(
            targets[j],
        )
}

/// `s` keeps the routes of `routes` in place, with their destinations, bound
/// as before or to `physical`; what follows them are created routes bound to
/// `physical` for destinations that had no route.
spec fn tracks(
    routes: Seq<RouteView>,
    targets: Seq<Seq<char>>,
    physical: Seq<char>,
    s: Seq<RouteView>,
) -> bool {
    &&& s.len() >= routes.len()
    &&& forall|i: int|
        0 <= i < routes.len() ==> (#[trigger] s[i]).section == routes[i].section && s[i].target
            == routes[i].target && (s[i].interface == routes[i].interface || s[i].interface
            == physical)
    &&& forall|i: int| routes.len() <= i < s.len() ==> created_for(routes, targets, physical, #[trigger] s[i])
}

spec fn created_for(
    routes: Seq<RouteView>,
    targets: Seq<Seq<char>>,
    physical: Seq<char>,
    r: RouteView,
) -> bool {
    r.interface == physical && exists|j: int|
        0 <= j < targets.len() && first_match(routes, #[trigger] targets[j]) >= routes.len()
            && r.section == section_name(targets[j]) && base_target(r.target) == base_target(
            targets[j],
        )
}

/// What change `a` left in `s`.
spec fn done(routes: Seq<RouteView>, s: Seq<RouteView>, a: ActionView) -> bool {
    match a {
        ActionView::SetInterface { section, interface } => forall|i: int|
            0 <= i < s.len() && (#[trigger] s[i]).section == section ==> s[i].interface
                == interface,
        ActionView::Create { section, target, interface } => exists|i: int|
            routes.len() <= i < s.len() && base_target((#[trigger] s[i]).target) == base_target(
                target,
            ),
    }
}

proof fn lemma_step(
    routes: Seq<RouteView>,
    targets: Seq<Seq<char>>,
    physical: Seq<char>,
    s: Seq<RouteView>,
    prev: Seq<ActionView>,
    a: ActionView,
)
    requires
        creation_names_free(routes, targets),
        creation_names_distinct(routes, targets),
        tracks(routes, targets, physical, s),
        forall|p: int| 0 <= p < prev.len() ==> done(routes, s, #[trigger] prev[p]),
        forall|p: int| 0 <= p < prev.len() ==> planned_action(routes, targets, physical, #[trigger] prev[p]),
        planned_action(routes, targets, physical, a),
    ensures
        tracks(routes, targets, physical, apply_action(s, a)),
        forall|p: int| 0 <= p < prev.len() ==> done(routes, apply_action(s, a), #[trigger] prev[p]),
        done(routes, apply_action(s, a), a),
{
    let n0 = routes.len();
    let s2 = apply_action(s, a);
    match a {
        ActionView::SetInterface { section, interface } => {
            assert(s2.len() == s.len());
            assert forall|i: int| n0 <= i < s2.len() implies created_for(
                routes,
                targets,
                physical,
                #[trigger] s2[i],
            ) by {
                assert(created_for(routes, targets, physical, s[i]));
                let j = choose|j: int|
                    0 <= j < targets.len() && first_match(routes, #[trigger] targets[j]) >= n0
                        && s[i].section == section_name(targets[j]) && base_target(s[i].target)
                        == base_target(targets[j]);
                assert(s2[i].section == s[i].section && s2[i].target == s[i].target);
            }
            assert forall|p: int| 0 <= p < prev.len() implies done(
                routes,
                s2,
                #[trigger] prev[p],
            ) by {
                assert(done(routes, s, prev[p]));
                assert(planned_action(routes, targets, physical, prev[p]));
                match prev[p] {
                    ActionView::SetInterface { .. } => {},
                    ActionView::Create { section: _, target, interface: _ } => {
                        let i = choose|i: int|
                            n0 <= i < s.len() && base_target((#[trigger] s[i]).target)
                                == base_target(target);
                        assert(s2[i].target == s[i].target);
                    },
                }
            }
        },
        ActionView::Create { section, target, interface } => {
            let j0 = choose|j: int|
                0 <= j < targets.len() && #[trigger] targets[j] == target && first_match(
                    routes,
                    target,
                ) >= n0 && section == section_name(target);
            lemma_first_match_spec(routes, target);
            assert forall|i: int| 0 <= i < n0 implies (#[trigger] s[i]).section != section by {
                if s[i].section == section {
                    assert(routes[i].section == section_name(targets[j0]));
                }
            }
            if has_section(s, section) {
                assert(s2.len() == s.len());
                assert forall|i: int| n0 <= i < s2.len() implies created_for(
                    routes,
                    targets,
                    physical,
                    #[trigger] s2[i],
                ) by {
                    assert(created_for(routes, targets, physical, s[i]));
                    if s[i].section == section {
                        assert(s2[i] == RouteView { section, target, interface });
                        assert(first_match(routes, targets[j0]) >= n0);
                    } else {
                        let j = choose|j: int|
                            0 <= j < targets.len() && first_match(routes, #[trigger] targets[j])
                                >= n0 && s[i].section == section_name(targets[j]) && base_target(
                                s[i].target,
                            ) == base_target(targets[j]);
                        assert(s2[i] == s[i]);
                    }
                }
                assert forall|p: int| 0 <= p < prev.len() implies done(
                    routes,
                    s2,
                    #[trigger] prev[p],
                ) by {
                    assert(done(routes, s, prev[p]));
                    assert(planned_action(routes, targets, physical, prev[p]));
                    match prev[p] {
                        ActionView::SetInterface { section: s_sec, interface: s_if } => {
                            assert forall|i: int|
                                0 <= i < s2.len() && (#[trigger] s2[i]).section == s_sec implies s2[i].interface
                                == s_if by {
                                if s[i].section == section {
                                } else {
                                    assert(s2[i] == s[i]);
                                }
                            }
                        },
                        ActionView::Create { section: _, target: t2, interface: _ } => {
                            let i = choose|i: int|
                                n0 <= i < s.len() && base_target((#[trigger] s[i]).target)
                                    == base_target(t2);
                            if s[i].section == section {
                                assert(created_for(routes, targets, physical, s[i]));
                                let j = choose|j: int|
                                    0 <= j < targets.len() && first_match(
                                        routes,
                                        #[trigger] targets[j],
                                    ) >= n0 && s[i].section == section_name(targets[j])
                                        && base_target(s[i].target) == base_target(targets[j]);
                                assert(section_name(targets[j]) == section_name(targets[j0]));
                                assert(base_target(targets[j]) == base_target(targets[j0]));
                                assert(s2[i].target == target);
                            } else {
                                assert(s2[i] == s[i]);
                            }
                        },
                    }
                }
                let w = choose|i: int| 0 <= i < s.len() && (#[trigger] s[i]).section == section;
                assert(s2[w].target == target);
            } else {
                assert(s2 == s.push(RouteView { section, target, interface }));
                assert(created_for(routes, targets, physical, s2[s.len() as int]));
                assert forall|i: int| n0 <= i < s2.len() implies created_for(
                    routes,
                    targets,
                    physical,
                    #[trigger] s2[i],
                ) by {
                    if i < s.len() {
                        assert(s2[i] == s[i]);
                    }
                }
                assert forall|p: int| 0 <= p < prev.len() implies done(
                    routes,
                    s2,
                    #[trigger] prev[p],
                ) by {
                    assert(done(routes, s, prev[p]));
                    match prev[p] {
                        ActionView::SetInterface { section: s_sec, interface: s_if } => {
                            assert forall|i: int|
                                0 <= i < s2.len() && (#[trigger] s2[i]).section == s_sec implies s2[i].interface
                                == s_if by {
                                if i < s.len() {
                                    assert(s2[i] == s[i]);
                                } else {
                                    assert(planned_action(routes, targets, physical, prev[p]));
                                }
                            }
                        },
                        ActionView::Create { section: _, target: t2, interface: _ } => {
                            let i = choose|i: int|
                                n0 <= i < s.len() && base_target((#[trigger] s[i]).target)
                                    == base_target(t2);
                            assert(s2[i] == s[i]);
                        },
                    }
                }
                assert(base_target(s2[s.len() as int].target) == base_target(target));
            }
        },
    }
}

proof fn lemma_apply_prefix(
    routes: Seq<RouteView>,
    targets: Seq<Seq<char>>,
    physical: Seq<char>,
    acts: Seq<ActionView>,
)
    requires
        creation_names_free(routes, targets),
        creation_names_distinct(routes, targets),
        forall|p: int| 0 <= p < acts.len() ==> planned_action(routes, targets, physical, #[trigger] acts[p]),
    ensures
        tracks(routes, targets, physical, apply_actions(routes, acts)),
        forall|p: int| 0 <= p < acts.len() ==> done(routes, apply_actions(routes, acts), #[trigger] acts[p]),
    decreases acts.len(),
{
    if acts.len() == 0 {
        assert(tracks(routes, targets, physical, routes));
    } else {
        let d = acts.drop_last();
        assert forall|p: int| 0 <= p < d.len() implies planned_action(
            routes,
            targets,
            physical,
            #[trigger] d[p],
        ) by {
            assert(d[p] == acts[p]);
        }
        lemma_apply_prefix(routes, targets, physical, d);
        let s = apply_actions(routes, d);
        assert(planned_action(routes, targets, physical, acts[acts.len() - 1]));
        lemma_step(routes, targets, physical, s, d, acts.last());
        assert forall|p: int| 0 <= p < acts.len() implies done(
            routes,
            apply_actions(routes, acts),
            #[trigger] acts[p],
        ) by {
            if p < d.len() {
                assert(d[p] == acts[p]);
            }
        }
    }
}

proof fn lemma_no_action_needed(
    routes: Seq<RouteView>,
    targets: Seq<Seq<char>>,
    physical: Seq<char>,
    s: Seq<RouteView>,
    t: Seq<char>,
)
    requires
        tracks(routes, targets, physical, s),
        forall|p: int|
            0 <= p < plan_spec(routes, targets, physical).len() ==> done(
                routes,
                s,
                #[trigger] plan_spec(routes, targets, physical)[p],
            ),
        forall|j: int|
            0 <= j < targets.len() && action_for(routes, #[trigger] targets[j], physical).len() == 1
                ==> exists|p: int|
                0 <= p < plan_spec(routes, targets, physical).len() && plan_spec(
                    routes,
                    targets,
                    physical,
                )[p] == action_for(routes, targets[j], physical)[0],
        targets.contains(t),
    ensures
        action_for(s, t, physical) == Seq::<ActionView>::empty(),
{
    let n0 = routes.len();
    let plan = plan_spec(routes, targets, physical);
    let j = choose|j: int| 0 <= j < targets.len() && targets[j] == t;
    lemma_first_match_spec(routes, t);
    lemma_first_match_spec(s, t);
    let k0 = first_match(routes, t);
    let k = first_match(s, t);
    if k0 < n0 {
        assert(s[k0].target == routes[k0].target);
        assert(k == k0) by {
            if k < k0 {
                assert(s[k].target == routes[k].target);
            }
        }
        if routes[k0].interface != physical {
            assert(action_for(routes, targets[j], physical).len() == 1);
            let p = choose|p: int|
                0 <= p < plan.len() && plan[p] == action_for(routes, targets[j], physical)[0];
            assert(done(routes, s, plan[p]));
            assert(s[k0].section == routes[k0].section);
        }
    } else {
        assert(action_for(routes, targets[j], physical).len() == 1);
        let p = choose|p: int|
            0 <= p < plan.len() && plan[p] == action_for(routes, targets[j], physical)[0];
        assert(done(routes, s, plan[p]));
        let i = choose|i: int|
            n0 <= i < s.len() && base_target((#[trigger] s[i]).target) == base_target(t);
        assert(k <= i);
        assert(k >= n0) by {
            if k < n0 {
                assert(s[k].target == routes[k].target);
            }
        }
        assert(created_for(routes, targets, physical, s[k]));
    }
}

proof fn lemma_plan_empty(
    targets: Seq<Seq<char>>,
    sub: Seq<Seq<char>>,
    s: Seq<RouteView>,
    physical: Seq<char>,
)
    requires
        forall|t: Seq<char>| sub.contains(t) ==> targets.contains(t),
        forall|t: Seq<char>| targets.contains(t) ==> action_for(s, t, physical) == Seq::<ActionView>::empty(),
    ensures
        plan_spec(s, sub, physical) == Seq::<ActionView>::empty(),
    decreases sub.len(),
{
    if sub.len() > 0 {
        let d = sub.drop_last();
        assert forall|t: Seq<char>| d.contains(t) implies targets.contains(t) by {
            let i = choose|i: int| 0 <= i < d.len() && d[i] == t;
            assert(sub[i] == t);
        }
        lemma_plan_empty(targets, d, s, physical);
        assert(sub.contains(sub.last())) by {
            assert(sub[sub.len() - 1] == sub.last());
        }
        assert(plan_spec(s, sub, physical) =~= Seq::<ActionView>::empty());
    }
}

/// Reconciling is idempotent: after the planned changes are applied, a
/// second plan for the same destinations and interface is empty. This holds
/// when the names created for destinations without a route are free in the
/// table, and such destinations share a name only when they match.
pub proof fn lemma_reconcile_idempotent(
    routes: Seq<RouteView>,
    targets: Seq<Seq<char>>,
    physical: Seq<char>,
)
    requires
        creation_names_free(routes, targets),
        creation_names_distinct(routes, targets),
    ensures
        plan_spec(
            apply_actions(routes, plan_spec(routes, targets, physical)),
            targets,
            physical,
        ) == Seq::<ActionView>::empty(),
{
    let plan = plan_spec(routes, targets, physical);
    lemma_plan_shape(routes, targets, physical);
    lemma_apply_prefix(routes, targets, physical, plan);
    let s = apply_actions(routes, plan);
    assert forall|t: Seq<char>| targets.contains(t) implies action_for(s, t, physical)
        == Seq::<ActionView>::empty() by {
        lemma_no_action_needed(routes, targets, physical, s, t);
    }
    lemma_plan_empty(targets, targets, s, physical);
}

} // verus!
