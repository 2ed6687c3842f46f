//! One fetch-and-converge cycle, as decisions: whether the interface must be
//! brought up, the plan and whether to apply it, and the host names to
//! publish for the wanted peers.

use crate::model::ValidationError;
use crate::peer::{Mutation, Peer, PeerConfig};
use crate::reconcile::{
    addresses_unique, config_keys_unique, peer_keys_unique, plan, plan_input_valid, plan_of,
    wanted,
};
use vstd::prelude::*;
use vstd::string::StrSliceExecFns;

use crate::peer::mutation_key;

verus! {

/// One line of the host-name mapping.
#[derive(Clone, Debug)]
pub struct HostEntry {
    pub ip: u32,
    pub hostname: String,
}

/// `<name>.<interface>.wg`
pub open spec fn hostname_of(name: Seq<char>, interface: Seq<char>) -> Seq<char> {
    name + seq!['.'] + interface + seq!['.', 'w', 'g']
}

/// Address and host name of each wanted desired peer, in order.
pub open spec fn host_entries(d: Seq<Peer>, own: Seq<char>, interface: Seq<char>) -> Seq<
    (u32, Seq<char>),
>
    decreases d.len(),
{
    if d.len() == 0 {
        seq![]
    } else {
        let prev = host_entries(d.drop_last(), own, interface);
        if wanted(d.last(), own) {
            prev.push((d.last().ip, hostname_of(d.last().name@, interface)))
        } else {
            prev
        }
    }
}

pub open spec fn entries_view(r: Seq<HostEntry>) -> Seq<(u32, Seq<char>)> {
    r.map_values(|e: HostEntry| (e.ip, e.hostname@))
}

/// Self-exclusion in the host names: every published entry belongs to a
/// wanted peer, which is enabled and is not the interface itself.
pub proof fn lemma_hosts_exclude_self(d: Seq<Peer>, own: Seq<char>, interface: Seq<char>)
    ensures
        forall|j: int|
            0 <= j < host_entries(d, own, interface).len() ==> #[trigger] entry_from_wanted(
                d,
                own,
                interface,
                host_entries(d, own, interface)[j],
            ),
    decreases d.len(),
{
    if d.len() > 0 {
        let dl = d.drop_last();
        lemma_hosts_exclude_self(dl, own, interface);
        let prev = host_entries(dl, own, interface);
        let cur = host_entries(d, own, interface);
        assert forall|j: int| 0 <= j < cur.len() implies #[trigger] entry_from_wanted(
            d,
            own,
            interface,
            cur[j],
        ) by {
            if j < prev.len() {
                assert(entry_from_wanted(dl, own, interface, prev[j]));
                let i = choose|i: int|
                    0 <= i < dl.len() && wanted(#[trigger] dl[i], own) && prev[j] == (
                    dl[i].ip,
                    hostname_of(dl[i].name@, interface),
                );
                assert(d[i] == dl[i]);
                assert(cur[j] == prev[j]);
            } else {
                assert(d[d.len() - 1] == d.last());
            }
        }
    }
}

/// `e` is the entry of some wanted peer of `d`.
pub open spec fn entry_from_wanted(
    d: Seq<Peer>,
    own: Seq<char>,
    interface: Seq<char>,
    e: (u32, Seq<char>),
) -> bool {
    exists|i: int|
        0 <= i < d.len() && wanted(#[trigger] d[i], own) && e == (
        d[i].ip,
        hostname_of(d[i].name@, interface),
    )
}

/// The host-name entries for the wanted peers of `desired`.
pub fn hosts_for(desired: &Vec<Peer>, own_key: &String, interface: &String) -> (r: Vec<HostEntry>)
    ensures
        entries_view(r@) == host_entries(desired@, own_key@, interface@),
{
    let mut out: Vec<HostEntry> = Vec::new();
    let mut i: usize = 0;
    while i < desired.len()
        invariant
            i <= desired@.len(),
            entries_view(out@) == host_entries(desired@.subrange(0, i as int), own_key@, interface@),
        decreases desired@.len() - i,
    {
        let p = &desired[i];
        proof {
            let s = desired@.subrange(0, i + 1);
            assert(s.drop_last() =~= desired@.subrange(0, i as int));
            assert(s.last() == desired@[i as int]);
        }
        if !p.is_disabled && p.public_key != *own_key {
            let mut name = p.name.clone();
            name.append(".");
            name.append(interface.as_str());
            name.append(".wg");
            proof {
                reveal_strlit(".");
                reveal_strlit(".wg");
                assert(name@ =~= hostname_of(p.name@, interface@));
            }
            let ghost before = out@;
            out.push(HostEntry { ip: p.ip, hostname: name });
            proof {
                assert(entries_view(out@) =~= entries_view(before).push((p.ip, name@)));
            }
        }
        i = i + 1;
    }
    assert(desired@.subrange(0, desired@.len() as int) =~= desired@);
    out
}

/// What one cycle does to the interface.
pub struct CyclePlan {
    pub mutations: Vec<Mutation>,
    /// Whether the plan goes to the device; a converged interface gets no call.
    pub apply: bool,
    /// The host names to publish once the plan is applied.
    pub hosts: Vec<HostEntry>,
}

/// The plan of one cycle for the interface named `interface`.
pub fn reconcile_cycle(
    desired: &Vec<Peer>,
    own_key: &String,
    actual: &Vec<PeerConfig>,
    interface: &String,
) -> (r: Result<CyclePlan, ValidationError>)
    ensures
        match r {
            Ok(c) => {
                &&& plan_input_valid(desired@, actual@)
                &&& c.mutations@ == plan_of(desired@, own_key@, actual@)
                &&& c.apply == (c.mutations@.len() > 0)
                &&& entries_view(c.hosts@) == host_entries(desired@, own_key@, interface@)
            },
            Err(e) => {
                &&& !plan_input_valid(desired@, actual@)
                &&& (e == ValidationError::DuplicateKey) == !(peer_keys_unique(desired@)
                    && config_keys_unique(actual@))
                &&& (e == ValidationError::DuplicateAddress) == (peer_keys_unique(desired@)
                    && config_keys_unique(actual@) && !addresses_unique(desired@))
            },
        },
{
    let mutations = match plan(desired, own_key, actual) {
        Ok(m) => m,
        Err(e) => {
            return Err(e);
        },
    };
    let apply = mutations.len() > 0;
    let hosts = hosts_for(desired, own_key, interface);
    Ok(CyclePlan { mutations, apply, hosts })
}

/// What the control loop does once a cycle has ended.
#[derive(Clone, Copy, Debug, PartialEq, Eq, Structural)]
pub enum LoopStep {
    /// Wait this many seconds, then run the next cycle.
    SleepThenRepeat(u64),
    /// End the loop normally.
    Stop,
    /// End the process with the cycle's error; no later cycle runs.
    Abort,
}

/// The decision after one cycle: a failed cycle aborts the loop; otherwise
/// the loop repeats after the interval in daemon mode (`Some(interval)`)
/// unless a stop was requested, and stops when no interval is given.
pub fn after_cycle(cycle_succeeded: bool, interval: Option<u64>, stop_requested: bool) -> (r:
    LoopStep)
    ensures
        r == (if !cycle_succeeded {
            LoopStep::Abort
        } else {
            match interval {
                Some(t) => if stop_requested {
                    LoopStep::Stop
                } else {
                    LoopStep::SleepThenRepeat(t)
                },
                None => LoopStep::Stop,
            }
        }),
{
    if !cycle_succeeded {
        return LoopStep::Abort;
    }
    match interval {
        Some(t) => if stop_requested {
            LoopStep::Stop
        } else {
            LoopStep::SleepThenRepeat(t)
        },
        None => LoopStep::Stop,
    }
}

/// What to do about the interface before fetching: `Some(true)` to bring it
/// up, `Some(false)` when it is up, `None` when it is down and may not be
/// brought up.
pub fn interface_action(interface_up: bool, may_bring_up: bool) -> (r: Option<bool>)
    ensures
        r == (if interface_up {
            Some(false)
        } else if may_bring_up {
            Some(true)
        } else {
            None
        }),
{
    if interface_up {
        Some(false)
    } else if may_bring_up {
        Some(true)
    } else {
        None
    }
}

/// The short form of a key: its first ten characters, or all of a shorter key.
pub open spec fn fingerprint_of(key: Seq<char>) -> Seq<char> {
    key.subrange(0, if key.len() < 10 { key.len() as int } else { 10 })
}

#[derive(Clone, Copy, Debug, PartialEq, Eq, Structural)]
pub enum ChangeKind {
    Added,
    Modified,
    Removed,
}

/// How one mutation is reported: by the peer's name wherever the desired list
/// holds its key (a disabled peer that is removed included), and by the
/// fingerprint of its key; never the whole key.
#[derive(Clone, Debug)]
pub struct ChangeReport {
    pub name: Option<String>,
    pub fingerprint: String,
    pub kind: ChangeKind,
}

pub open spec fn kind_of(m: Mutation) -> ChangeKind {
    match m {
        Mutation::Add(_) => ChangeKind::Added,
        Mutation::Modify(_) => ChangeKind::Modified,
        Mutation::Remove(_) => ChangeKind::Removed,
    }
}

/// `r` reports mutation `m` against the desired peers `d`.
pub open spec fn reports(r: ChangeReport, m: Mutation, d: Seq<Peer>) -> bool {
    &&& r.kind == kind_of(m)
    &&& r.fingerprint@ == fingerprint_of(mutation_key(m))
    &&& match r.name {
        Some(name) => exists|i: int|
            0 <= i < d.len() && (#[trigger] d[i]).public_key@ == mutation_key(m) && d[i].name@
                == name@,
        None => forall|i: int|
            0 <= i < d.len() ==> (#[trigger] d[i]).public_key@ != mutation_key(m),
    }
}

fn key_of(m: &Mutation) -> (r: &String)
    ensures
        r@ == mutation_key(*m),
{
    match m {
        Mutation::Add(c) => &c.public_key,
        Mutation::Modify(c) => &c.public_key,
        Mutation::Remove(k) => k,
    }
}

/// The index of a desired peer that carries `key`, if any.
fn find_desired(desired: &Vec<Peer>, key: &String) -> (r: Option<usize>)
    ensures
        match r {
            Some(i) => i < desired@.len() && desired@[i as int].public_key@ == key@,
            None => forall|i: int|
                0 <= i < desired@.len() ==> (#[trigger] desired@[i]).public_key@ != key@,
        },
{
    let mut i: usize = 0;
    while i < desired.len()
        invariant
            i <= desired@.len(),
            forall|y: int| 0 <= y < i ==> (#[trigger] desired@[y]).public_key@ != key@,
        decreases desired@.len() - i,
    {
        if desired[i].public_key == *key {
            return Some(i);
        }
        i = i + 1;
    }
    None
}

/// One report per mutation of `plan`, in order.
pub fn report_changes(plan: &Vec<Mutation>, desired: &Vec<Peer>) -> (r: Vec<ChangeReport>)
    ensures
        r@.len() == plan@.len(),
        forall|j: int| 0 <= j < r@.len() ==> reports(#[trigger] r@[j], plan@[j], desired@),
{
    let mut out: Vec<ChangeReport> = Vec::new();
    let mut j: usize = 0;
    while j < plan.len()
        invariant
            j <= plan@.len(),
            out@.len() == j,
            forall|x: int| 0 <= x < j ==> reports(#[trigger] out@[x], plan@[x], desired@),
        decreases plan@.len() - j,
    {
        let m = &plan[j];
        let key = key_of(m);
        let kind = match m {
            Mutation::Add(_) => ChangeKind::Added,
            Mutation::Modify(_) => ChangeKind::Modified,
            Mutation::Remove(_) => ChangeKind::Removed,
        };
        let name = match find_desired(desired, key) {
            Some(i) => Some(desired[i].name.clone()),
            None => None,
        };
        let report = ChangeReport { name, fingerprint: key_fingerprint(key), kind };
        assert(reports(report, plan@[j as int], desired@));
        out.push(report);
        j = j + 1;
    }
    out
}

/// The short fingerprint under which a key is reported: its first ten
/// characters, or the whole key when shorter.
pub fn key_fingerprint(key: &String) -> (r: String)
    ensures
        r@ == fingerprint_of(key@),
{
    let s = key.as_str();
    let n = s.unicode_len();
    let end: usize = if n < 10 {
        n
    } else {
        10
    };
    s.substring_char(0, end).to_string()
}

} // verus!
