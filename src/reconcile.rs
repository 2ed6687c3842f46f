//! The reconciliation engine: the mutation plan that takes the live interface
//! from its current peers to the desired ones.

use crate::model::ValidationError;
use crate::peer::{
    change_is_empty, config_of, diff_of, mutation_key, same_config, Mutation, Peer, PeerConfig,
};
use vstd::prelude::*;

verus! {

/// A desired peer that the interface should hold: enabled, and not the
/// interface itself.
pub open spec fn wanted(p: Peer, own: Seq<char>) -> bool {
    !p.is_disabled && p.public_key@ != own
}

/// Some configured peer carries `key`.
pub open spec fn configured(actual: Seq<PeerConfig>, key: Seq<char>) -> bool {
    exists|j: int| 0 <= j < actual.len() && (#[trigger] actual[j]).public_key@ == key
}

/// The index of a configured peer that carries `key`.
pub open spec fn configured_at(actual: Seq<PeerConfig>, key: Seq<char>) -> int {
    choose|j: int| 0 <= j < actual.len() && (#[trigger] actual[j]).public_key@ == key
}

/// What the plan holds for one desired peer: `Add` when nothing carries its
/// key, `Modify` with the changed fields alone when some field differs, and
/// nothing when it is not wanted or already matches.
pub open spec fn peer_mutation(p: Peer, own: Seq<char>, actual: Seq<PeerConfig>) -> Option<
    Mutation,
> {
    if !wanted(p, own) {
        None
    } else if !configured(actual, p.public_key@) {
        Some(Mutation::Add(config_of(p)))
    } else {
        let c = diff_of(p, actual[configured_at(actual, p.public_key@)]);
        if change_is_empty(c) {
            None
        } else {
            Some(Mutation::Modify(c))
        }
    }
}

/// Some enabled desired peer carries `key`.
pub open spec fn enabled_key(desired: Seq<Peer>, key: Seq<char>) -> bool {
    exists|i: int|
        0 <= i < desired.len() && !(#[trigger] desired[i]).is_disabled && desired[i].public_key@
            == key
}

/// A configured peer that the plan removes: no enabled desired peer carries
/// its key, and it is not the interface itself.
pub open spec fn stale(c: PeerConfig, desired: Seq<Peer>, own: Seq<char>) -> bool {
    c.public_key@ != own && !enabled_key(desired, c.public_key@)
}

/// The mutations for the desired peers, in their order.
pub open spec fn desired_mutations(d: Seq<Peer>, own: Seq<char>, actual: Seq<PeerConfig>) -> Seq<
    Mutation,
>
    decreases d.len(),
{
    if d.len() == 0 {
        seq![]
    } else {
        let prev = desired_mutations(d.drop_last(), own, actual);
        match peer_mutation(d.last(), own, actual) {
            Some(m) => prev.push(m),
            None => prev,
        }
    }
}

/// The removals for the stale configured peers, in their order.
pub open spec fn removals(a: Seq<PeerConfig>, desired: Seq<Peer>, own: Seq<char>) -> Seq<
    Mutation,
>
    decreases a.len(),
{
    if a.len() == 0 {
        seq![]
    } else {
        let prev = removals(a.drop_last(), desired, own);
        if stale(a.last(), desired, own) {
            prev.push(Mutation::Remove(a.last().public_key))
        } else {
            prev
        }
    }
}

/// The whole plan: changes for desired peers, then removals.
pub open spec fn plan_of(desired: Seq<Peer>, own: Seq<char>, actual: Seq<PeerConfig>) -> Seq<
    Mutation,
> {
    desired_mutations(desired, own, actual) + removals(actual, desired, own)
}

pub open spec fn peer_keys_unique(d: Seq<Peer>) -> bool {
    forall|i: int, j: int|
        0 <= i < d.len() && 0 <= j < d.len() && i != j ==> (#[trigger] d[i]).public_key@ != (
        #[trigger] d[j]).public_key@
}

pub open spec fn config_keys_unique(a: Seq<PeerConfig>) -> bool {
    forall|i: int, j: int|
        0 <= i < a.len() && 0 <= j < a.len() && i != j ==> (#[trigger] a[i]).public_key@ != (
        #[trigger] a[j]).public_key@
}

/// No two enabled desired peers share an address.
pub open spec fn addresses_unique(d: Seq<Peer>) -> bool {
    forall|i: int, j: int|
        0 <= i < d.len() && 0 <= j < d.len() && i != j && !(#[trigger] d[i]).is_disabled && !(
        #[trigger] d[j]).is_disabled ==> d[i].ip != d[j].ip
}

/// The topology that a plan may be computed from.
pub open spec fn plan_input_valid(desired: Seq<Peer>, actual: Seq<PeerConfig>) -> bool {
    peer_keys_unique(desired) && config_keys_unique(actual) && addresses_unique(desired)
}

fn peer_keys_are_unique(d: &Vec<Peer>) -> (r: bool)
    ensures
        r == peer_keys_unique(d@),
{
    let n = d.len();
    let mut i: usize = 0;
    while i < n
        invariant
            n == d@.len(),
            i <= n,
            forall|a: int, b: int|
                0 <= a < i && 0 <= b < n && a != b ==> (#[trigger] d@[a]).public_key@ != (
                #[trigger] d@[b]).public_key@,
        decreases n - i,
    {
        let mut j: usize = 0;
        while j < n
            invariant
                n == d@.len(),
                i < n,
                j <= n,
                forall|a: int, b: int|
                    0 <= a < i && 0 <= b < n && a != b ==> (#[trigger] d@[a]).public_key@ != (
                    #[trigger] d@[b]).public_key@,
                forall|b: int|
                    0 <= b < j && i != b ==> d@[i as int].public_key@ != (
                    #[trigger] d@[b]).public_key@,
            decreases n - j,
        {
            if i != j && d[i].public_key == d[j].public_key {
                return false;
            }
            j = j + 1;
        }
        i = i + 1;
    }
    true
}

fn config_keys_are_unique(a: &Vec<PeerConfig>) -> (r: bool)
    ensures
        r == config_keys_unique(a@),
{
    let n = a.len();
    let mut i: usize = 0;
    while i < n
        invariant
            n == a@.len(),
            i <= n,
            forall|x: int, y: int|
                0 <= x < i && 0 <= y < n && x != y ==> (#[trigger] a@[x]).public_key@ != (
                #[trigger] a@[y]).public_key@,
        decreases n - i,
    {
        let mut j: usize = 0;
        while j < n
            invariant
                n == a@.len(),
                i < n,
                j <= n,
                forall|x: int, y: int|
                    0 <= x < i && 0 <= y < n && x != y ==> (#[trigger] a@[x]).public_key@ != (
                    #[trigger] a@[y]).public_key@,
                forall|y: int|
                    0 <= y < j && i != y ==> a@[i as int].public_key@ != (
                    #[trigger] a@[y]).public_key@,
            decreases n - j,
        {
            if i != j && a[i].public_key == a[j].public_key {
                return false;
            }
            j = j + 1;
        }
        i = i + 1;
    }
    true
}

fn addresses_are_unique(d: &Vec<Peer>) -> (r: bool)
    ensures
        r == addresses_unique(d@),
{
    let n = d.len();
    let mut i: usize = 0;
    while i < n
        invariant
            n == d@.len(),
            i <= n,
            forall|a: int, b: int|
                0 <= a < i && 0 <= b < n && a != b && !(#[trigger] d@[a]).is_disabled && !(
                #[trigger] d@[b]).is_disabled ==> d@[a].ip != d@[b].ip,
        decreases n - i,
    {
        let mut j: usize = 0;
        while j < n
            invariant
                n == d@.len(),
                i < n,
                j <= n,
                forall|a: int, b: int|
                    0 <= a < i && 0 <= b < n && a != b && !(#[trigger] d@[a]).is_disabled && !(
                    #[trigger] d@[b]).is_disabled ==> d@[a].ip != d@[b].ip,
                forall|b: int|
                    0 <= b < j && i != b && !d@[i as int].is_disabled && !(
                    #[trigger] d@[b]).is_disabled ==> d@[i as int].ip != d@[b].ip,
            decreases n - j,
        {
            if i != j && !d[i].is_disabled && !d[j].is_disabled && d[i].ip == d[j].ip {
                return false;
            }
            j = j + 1;
        }
        i = i + 1;
    }
    true
}

/// The index of the configured peer that carries `key`, if any.
fn find_configured(actual: &Vec<PeerConfig>, key: &String) -> (r: Option<usize>)
    ensures
        match r {
            Some(j) => j < actual@.len() && actual@[j as int].public_key@ == key@,
            None => !configured(actual@, key@),
        },
{
    let mut j: usize = 0;
    while j < actual.len()
        invariant
            j <= actual@.len(),
            forall|x: int| 0 <= x < j ==> (#[trigger] actual@[x]).public_key@ != key@,
        decreases actual@.len() - j,
    {
        if actual[j].public_key == *key {
            return Some(j);
        }
        j = j + 1;
    }
    None
}

fn is_enabled_key(desired: &Vec<Peer>, key: &String) -> (r: bool)
    ensures
        r == enabled_key(desired@, key@),
{
    let mut i: usize = 0;
    while i < desired.len()
        invariant
            i <= desired@.len(),
            forall|x: int|
                0 <= x < i ==> !((#[trigger] desired@[x]).is_disabled == false
                    && desired@[x].public_key@ == key@),
        decreases desired@.len() - i,
    {
        if !desired[i].is_disabled && desired[i].public_key == *key {
            return true;
        }
        i = i + 1;
    }
    false
}

/// Computes the mutation plan that makes the interface with public key
/// `own_key` and configured peers `actual` match `desired`. A list with a
/// repeated public key, or two enabled desired peers on one address, is
/// refused before anything is computed.
pub fn plan(desired: &Vec<Peer>, own_key: &String, actual: &Vec<PeerConfig>) -> (r: Result<
    Vec<Mutation>,
    ValidationError,
>)
    ensures
        match r {
            Ok(m) => plan_input_valid(desired@, actual@) && m@ == plan_of(
                desired@,
                own_key@,
                actual@,
            ),
            Err(e) => {
                &&& !plan_input_valid(desired@, actual@)
                &&& (e == ValidationError::DuplicateKey) == !(peer_keys_unique(desired@)
                    && config_keys_unique(actual@))
                &&& (e == ValidationError::DuplicateAddress) == (peer_keys_unique(desired@)
                    && config_keys_unique(actual@) && !addresses_unique(desired@))
            },
        },
{
    if !peer_keys_are_unique(desired) || !config_keys_are_unique(actual) {
        return Err(ValidationError::DuplicateKey);
    }
    if !addresses_are_unique(desired) {
        return Err(ValidationError::DuplicateAddress);
    }
    let mut out: Vec<Mutation> = Vec::new();
    let mut i: usize = 0;
    while i < desired.len()
        invariant
            i <= desired@.len(),
            config_keys_unique(actual@),
            out@ == desired_mutations(desired@.subrange(0, i as int), own_key@, actual@),
        decreases desired@.len() - i,
    {
        let p = &desired[i];
        proof {
            let s = desired@.subrange(0, i + 1);
            assert(s.drop_last() =~= desired@.subrange(0, i as int));
            assert(s.last() == desired@[i as int]);
        }
        if !p.is_disabled && p.public_key != *own_key {
            match find_configured(actual, &p.public_key) {
                None => {
                    out.push(Mutation::Add(p.config()));
                },
                Some(j) => {
                    proof {
                        let c = configured_at(actual@, p.public_key@);
                        assert(configured(actual@, p.public_key@));
                        assert(actual@[c].public_key@ == actual@[j as int].public_key@);
                        assert(c == j);
                    }
                    match p.diff(&actual[j]) {
                        Some(change) => {
                            out.push(Mutation::Modify(change));
                        },
                        None => {},
                    }
                },
            }
        }
        i = i + 1;
    }
    assert(desired@.subrange(0, desired@.len() as int) =~= desired@);
    let ghost head = out@;
    let mut k: usize = 0;
    while k < actual.len()
        invariant
            k <= actual@.len(),
            head == desired_mutations(desired@, own_key@, actual@),
            out@ == head + removals(actual@.subrange(0, k as int), desired@, own_key@),
        decreases actual@.len() - k,
    {
        proof {
            let s = actual@.subrange(0, k + 1);
            assert(s.drop_last() =~= actual@.subrange(0, k as int));
            assert(s.last() == actual@[k as int]);
        }
        let c = &actual[k];
        if c.public_key != *own_key && !is_enabled_key(desired, &c.public_key) {
            out.push(Mutation::Remove(c.public_key.clone()));
            proof {
                assert(out@ =~= head + removals(actual@.subrange(0, k + 1), desired@, own_key@));
            }
        }
        k = k + 1;
    }
    assert(actual@.subrange(0, actual@.len() as int) =~= actual@);
    Ok(out)
}

/// What the desired-peer part of a plan holds: each entry is the mutation of
/// one desired peer, each such mutation is there, and with unique desired keys
/// no key repeats.
proof fn lemma_desired_mutations(d: Seq<Peer>, own: Seq<char>, actual: Seq<PeerConfig>)
    ensures
        forall|j: int|
            0 <= j < desired_mutations(d, own, actual).len() ==> exists|i: int|
                0 <= i < d.len() && peer_mutation(#[trigger] d[i], own, actual) == Some(
                    #[trigger] desired_mutations(d, own, actual)[j],
                ),
        forall|i: int|
            0 <= i < d.len() && (#[trigger] peer_mutation(d[i], own, actual)).is_some()
                ==> desired_mutations(d, own, actual).contains(
                peer_mutation(d[i], own, actual).unwrap(),
            ),
        peer_keys_unique(d) ==> forall|j: int, k: int|
            0 <= j < k < desired_mutations(d, own, actual).len() ==> mutation_key(
                #[trigger] desired_mutations(d, own, actual)[j],
            ) != mutation_key(#[trigger] desired_mutations(d, own, actual)[k]),
    decreases d.len(),
{
    if d.len() > 0 {
        let dl = d.drop_last();
        lemma_desired_mutations(dl, own, actual);
        let prev = desired_mutations(dl, own, actual);
        let cur = desired_mutations(d, own, actual);
        assert forall|j: int| 0 <= j < cur.len() implies exists|i: int|
            0 <= i < d.len() && peer_mutation(#[trigger] d[i], own, actual) == Some(
                #[trigger] cur[j],
            ) by {
            if j < prev.len() {
                let i = choose|i: int|
                    0 <= i < dl.len() && peer_mutation(#[trigger] dl[i], own, actual) == Some(
                        prev[j],
                    );
                assert(d[i] == dl[i]);
            } else {
                assert(d[d.len() - 1] == d.last());
            }
        }
        assert forall|i: int|
            0 <= i < d.len() && (#[trigger] peer_mutation(d[i], own, actual)).is_some()
                implies cur.contains(peer_mutation(d[i], own, actual).unwrap()) by {
            if i < d.len() - 1 {
                assert(d[i] == dl[i]);
                let w = choose|w: int|
                    0 <= w < prev.len() && prev[w] == peer_mutation(dl[i], own, actual).unwrap();
                assert(cur[w] == prev[w]);
            } else {
                assert(cur[cur.len() - 1] == peer_mutation(d[i], own, actual).unwrap());
            }
        }
        if peer_keys_unique(d) {
            assert forall|i: int, j: int|
                0 <= i < dl.len() && 0 <= j < dl.len() && i != j implies (#[trigger] dl[i]).public_key@
                != (#[trigger] dl[j]).public_key@ by {
                assert(dl[i] == d[i] && dl[j] == d[j]);
            }
            assert forall|j: int, k: int| 0 <= j < k < cur.len() implies mutation_key(
                #[trigger] cur[j],
            ) != mutation_key(#[trigger] cur[k]) by {
                if k == prev.len() {
                    let i = choose|i: int|
                        0 <= i < dl.len() && peer_mutation(#[trigger] dl[i], own, actual) == Some(
                            prev[j],
                        );
                    assert(dl[i] == d[i]);
                    assert(d.last() == d[d.len() - 1]);
                } else {
                    assert(cur[j] == prev[j] && cur[k] == prev[k]);
                }
            }
        }
    }
}

/// What the removal part of a plan holds: each entry removes one stale
/// configured peer, every stale one is removed, and with unique configured
/// keys no key repeats.
proof fn lemma_removals(a: Seq<PeerConfig>, desired: Seq<Peer>, own: Seq<char>)
    ensures
        forall|j: int|
            0 <= j < removals(a, desired, own).len() ==> exists|k: int|
                0 <= k < a.len() && stale(#[trigger] a[k], desired, own) && #[trigger] removals(
                    a,
                    desired,
                    own,
                )[j] == Mutation::Remove(a[k].public_key),
        forall|k: int|
            0 <= k < a.len() && stale(#[trigger] a[k], desired, own) ==> removals(
                a,
                desired,
                own,
            ).contains(Mutation::Remove(a[k].public_key)),
        config_keys_unique(a) ==> forall|j: int, k: int|
            0 <= j < k < removals(a, desired, own).len() ==> mutation_key(
                #[trigger] removals(a, desired, own)[j],
            ) != mutation_key(#[trigger] removals(a, desired, own)[k]),
    decreases a.len(),
{
    if a.len() > 0 {
        let al = a.drop_last();
        lemma_removals(al, desired, own);
        let prev = removals(al, desired, own);
        let cur = removals(a, desired, own);
        assert forall|j: int| 0 <= j < cur.len() implies exists|k: int|
            0 <= k < a.len() && stale(#[trigger] a[k], desired, own) && #[trigger] cur[j]
                == Mutation::Remove(a[k].public_key) by {
            if j < prev.len() {
                let k = choose|k: int|
                    0 <= k < al.len() && stale(#[trigger] al[k], desired, own) && prev[j]
                        == Mutation::Remove(al[k].public_key);
                assert(a[k] == al[k]);
            } else {
                assert(a[a.len() - 1] == a.last());
            }
        }
        assert forall|k: int| 0 <= k < a.len() && stale(#[trigger] a[k], desired, own) implies cur.contains(
            Mutation::Remove(a[k].public_key),
        ) by {
            if k < a.len() - 1 {
                assert(a[k] == al[k]);
                let w = choose|w: int|
                    0 <= w < prev.len() && prev[w] == Mutation::Remove(al[k].public_key);
                assert(cur[w] == prev[w]);
            } else {
                assert(cur[cur.len() - 1] == Mutation::Remove(a[k].public_key));
            }
        }
        if config_keys_unique(a) {
            assert forall|i: int, j: int|
                0 <= i < al.len() && 0 <= j < al.len() && i != j implies (#[trigger] al[i]).public_key@
                != (#[trigger] al[j]).public_key@ by {
                assert(al[i] == a[i] && al[j] == a[j]);
            }
            assert forall|j: int, k: int| 0 <= j < k < cur.len() implies mutation_key(
                #[trigger] cur[j],
            ) != mutation_key(#[trigger] cur[k]) by {
                if k == prev.len() {
                    let i = choose|i: int|
                        0 <= i < al.len() && stale(#[trigger] al[i], desired, own) && prev[j]
                            == Mutation::Remove(al[i].public_key);
                    assert(al[i] == a[i]);
                    assert(a.last() == a[a.len() - 1]);
                } else {
                    assert(cur[j] == prev[j] && cur[k] == prev[k]);
                }
            }
        }
    }
}

/// The mutation of a desired peer carries that peer's key.
proof fn lemma_peer_mutation_key(p: Peer, own: Seq<char>, actual: Seq<PeerConfig>)
    requires
        peer_mutation(p, own, actual).is_some(),
    ensures
        mutation_key(peer_mutation(p, own, actual).unwrap()) == p.public_key@,
        wanted(p, own),
        !(peer_mutation(p, own, actual).unwrap() is Remove),
{
}

/// Completeness and exclusivity: on a valid topology the plan names each key
/// at most once; it holds the mutation of every desired peer that needs one
/// (`Add` in full when absent, `Modify` with the changed fields alone when
/// present and different) and a removal of every stale configured peer; and it
/// holds nothing else.
pub proof fn lemma_plan_complete_and_exclusive(
    desired: Seq<Peer>,
    own: Seq<char>,
    actual: Seq<PeerConfig>,
)
    requires
        plan_input_valid(desired, actual),
    ensures
        forall|j: int, k: int|
            0 <= j < k < plan_of(desired, own, actual).len() ==> mutation_key(
                #[trigger] plan_of(desired, own, actual)[j],
            ) != mutation_key(#[trigger] plan_of(desired, own, actual)[k]),
        forall|i: int|
            0 <= i < desired.len() && (#[trigger] peer_mutation(desired[i], own, actual)).is_some()
                ==> plan_of(desired, own, actual).contains(
                peer_mutation(desired[i], own, actual).unwrap(),
            ),
        forall|k: int|
            0 <= k < actual.len() && stale(#[trigger] actual[k], desired, own) ==> plan_of(
                desired,
                own,
                actual,
            ).contains(Mutation::Remove(actual[k].public_key)),
        forall|j: int|
            0 <= j < plan_of(desired, own, actual).len() ==> (exists|i: int|
                0 <= i < desired.len() && peer_mutation(#[trigger] desired[i], own, actual) == Some(
                    #[trigger] plan_of(desired, own, actual)[j],
                )) || (exists|k: int|
                0 <= k < actual.len() && stale(#[trigger] actual[k], desired, own)
                    && plan_of(desired, own, actual)[j] == Mutation::Remove(actual[k].public_key)),
{
    lemma_desired_mutations(desired, own, actual);
    lemma_removals(actual, desired, own);
    let dm = desired_mutations(desired, own, actual);
    let rm = removals(actual, desired, own);
    let p = plan_of(desired, own, actual);
    assert forall|j: int| 0 <= j < p.len() implies (exists|i: int|
        0 <= i < desired.len() && peer_mutation(#[trigger] desired[i], own, actual) == Some(
            #[trigger] p[j],
        )) || (exists|k: int|
        0 <= k < actual.len() && stale(#[trigger] actual[k], desired, own) && p[j]
            == Mutation::Remove(actual[k].public_key)) by {
        if j < dm.len() {
            assert(p[j] == dm[j]);
        } else {
            assert(p[j] == rm[j - dm.len()]);
        }
    }
    assert forall|i: int|
        0 <= i < desired.len() && (#[trigger] peer_mutation(desired[i], own, actual)).is_some()
            implies p.contains(peer_mutation(desired[i], own, actual).unwrap()) by {
        let w = choose|w: int|
            0 <= w < dm.len() && dm[w] == peer_mutation(desired[i], own, actual).unwrap();
        assert(p[w] == dm[w]);
    }
    assert forall|k: int| 0 <= k < actual.len() && stale(#[trigger] actual[k], desired, own) implies p.contains(
        Mutation::Remove(actual[k].public_key),
    ) by {
        let w = choose|w: int| 0 <= w < rm.len() && rm[w] == Mutation::Remove(actual[k].public_key);
        assert(p[dm.len() + w] == rm[w]);
    }
    assert forall|j: int, k: int| 0 <= j < k < p.len() implies mutation_key(#[trigger] p[j])
        != mutation_key(#[trigger] p[k]) by {
        if k < dm.len() {
            assert(p[j] == dm[j] && p[k] == dm[k]);
        } else if j >= dm.len() {
            assert(p[j] == rm[j - dm.len()] && p[k] == rm[k - dm.len()]);
        } else {
            assert(p[j] == dm[j] && p[k] == rm[k - dm.len()]);
            let i = choose|i: int|
                0 <= i < desired.len() && peer_mutation(#[trigger] desired[i], own, actual) == Some(
                    dm[j],
                );
            lemma_peer_mutation_key(desired[i], own, actual);
            let c = choose|c: int|
                0 <= c < actual.len() && stale(#[trigger] actual[c], desired, own) && rm[k
                    - dm.len()] == Mutation::Remove(actual[c].public_key);
            if mutation_key(p[j]) == mutation_key(p[k]) {
                assert(enabled_key(desired, actual[c].public_key@));
            }
        }
    }
}

/// Self-exclusion: no mutation of a plan is about the interface's own key.
pub proof fn lemma_plan_excludes_self(desired: Seq<Peer>, own: Seq<char>, actual: Seq<PeerConfig>)
    ensures
        forall|j: int|
            0 <= j < plan_of(desired, own, actual).len() ==> mutation_key(
                #[trigger] plan_of(desired, own, actual)[j],
            ) != own,
{
    lemma_desired_mutations(desired, own, actual);
    lemma_removals(actual, desired, own);
    let dm = desired_mutations(desired, own, actual);
    let rm = removals(actual, desired, own);
    let p = plan_of(desired, own, actual);
    assert forall|j: int| 0 <= j < p.len() implies mutation_key(#[trigger] p[j]) != own by {
        if j < dm.len() {
            assert(p[j] == dm[j]);
            let i = choose|i: int|
                0 <= i < desired.len() && peer_mutation(#[trigger] desired[i], own, actual) == Some(
                    dm[j],
                );
            lemma_peer_mutation_key(desired[i], own, actual);
        } else {
            assert(p[j] == rm[j - dm.len()]);
        }
    }
}

/// Disabled peers: on a valid topology no `Add` or `Modify` of the plan
/// carries the key of a disabled desired peer, and a configured peer that
/// carries such a key (other than the interface's own) is removed.
pub proof fn lemma_plan_disabled_peers(desired: Seq<Peer>, own: Seq<char>, actual: Seq<PeerConfig>)
    requires
        plan_input_valid(desired, actual),
    ensures
        forall|i: int, j: int|
            0 <= i < desired.len() && (#[trigger] desired[i]).is_disabled && 0 <= j < plan_of(
                desired,
                own,
                actual,
            ).len() && !(#[trigger] plan_of(desired, own, actual)[j] is Remove) ==> mutation_key(
                plan_of(desired, own, actual)[j],
            ) != desired[i].public_key@,
        forall|i: int, k: int|
            0 <= i < desired.len() && (#[trigger] desired[i]).is_disabled && 0 <= k < actual.len()
                && (#[trigger] actual[k]).public_key@ == desired[i].public_key@
                && desired[i].public_key@ != own ==> plan_of(desired, own, actual).contains(
                Mutation::Remove(actual[k].public_key),
            ),
{
    lemma_plan_complete_and_exclusive(desired, own, actual);
    let p = plan_of(desired, own, actual);
    assert forall|i: int, j: int|
        0 <= i < desired.len() && (#[trigger] desired[i]).is_disabled && 0 <= j < p.len() && !(
        #[trigger] p[j] is Remove) implies mutation_key(p[j]) != desired[i].public_key@ by {
        if exists|x: int|
            0 <= x < desired.len() && peer_mutation(#[trigger] desired[x], own, actual) == Some(
                p[j],
            ) {
            let x = choose|x: int|
                0 <= x < desired.len() && peer_mutation(#[trigger] desired[x], own, actual) == Some(
                    p[j],
                );
            lemma_peer_mutation_key(desired[x], own, actual);
        }
    }
    assert forall|i: int, k: int|
        0 <= i < desired.len() && (#[trigger] desired[i]).is_disabled && 0 <= k < actual.len()
            && (#[trigger] actual[k]).public_key@ == desired[i].public_key@
            && desired[i].public_key@ != own implies p.contains(
        Mutation::Remove(actual[k].public_key),
    ) by {
        assert(stale(actual[k], desired, own));
    }
}

/// The configured peers are exactly the wanted desired peers, field for field.
pub open spec fn in_sync(desired: Seq<Peer>, own: Seq<char>, actual: Seq<PeerConfig>) -> bool {
    &&& forall|i: int|
        0 <= i < desired.len() && wanted(#[trigger] desired[i], own) ==> exists|j: int|
            0 <= j < actual.len() && same_config(desired[i], #[trigger] actual[j])
    &&& forall|j: int|
        0 <= j < actual.len() ==> exists|i: int|
            0 <= i < desired.len() && wanted(#[trigger] desired[i], own) && same_config(
                desired[i],
                #[trigger] actual[j],
            )
}

/// Idempotence: when the interface already holds exactly the wanted peers, the
/// plan is empty.
pub proof fn lemma_plan_idempotent(desired: Seq<Peer>, own: Seq<char>, actual: Seq<PeerConfig>)
    requires
        plan_input_valid(desired, actual),
        in_sync(desired, own, actual),
    ensures
        plan_of(desired, own, actual).len() == 0,
{
    lemma_desired_mutations(desired, own, actual);
    lemma_removals(actual, desired, own);
    let dm = desired_mutations(desired, own, actual);
    let rm = removals(actual, desired, own);
    if dm.len() > 0 {
        let i = choose|i: int|
            0 <= i < desired.len() && peer_mutation(#[trigger] desired[i], own, actual) == Some(
                dm[0],
            );
        let p = desired[i];
        let j = choose|j: int| 0 <= j < actual.len() && same_config(p, #[trigger] actual[j]);
        assert(configured(actual, p.public_key@));
        let c = configured_at(actual, p.public_key@);
        assert(c == j);
    }
    if rm.len() > 0 {
        let k = choose|k: int|
            0 <= k < actual.len() && stale(#[trigger] actual[k], desired, own) && rm[0]
                == Mutation::Remove(actual[k].public_key);
        let i = choose|i: int|
            0 <= i < desired.len() && wanted(#[trigger] desired[i], own) && same_config(
                desired[i],
                actual[k],
            );
        assert(enabled_key(desired, actual[k].public_key@));
    }
}

} // verus!
