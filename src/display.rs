//! The order in which peers are shown: most recent handshake first, peers
//! that never shook hands last, and ties by ascending address.

use vstd::prelude::*;
use vstd::seq_lib::to_multiset_insert;

verus! {

/// What the ordering of a shown peer reads. `index` lets the caller find the
/// peer again.
#[derive(Clone, Copy, Debug, PartialEq, Eq, Structural)]
pub struct PeerStatus {
    pub index: usize,
    pub ip: u32,
    /// Seconds since the epoch of the last handshake, if one happened.
    pub last_handshake: Option<u64>,
}

/// `a` may be shown before `b`.
pub open spec fn shown_before(a: PeerStatus, b: PeerStatus) -> bool {
    match (a.last_handshake, b.last_handshake) {
        (Some(x), Some(y)) => x > y || (x == y && a.ip <= b.ip),
        (Some(_), None) => true,
        (None, Some(_)) => false,
        (None, None) => a.ip <= b.ip,
    }
}

pub open spec fn in_display_order(s: Seq<PeerStatus>) -> bool {
    forall|j: int, k: int| 0 <= j < k < s.len() ==> shown_before(#[trigger] s[j], #[trigger] s[k])
}

/// The display order is total and transitive, and two peers that may each be
/// shown before the other share their handshake time and address.
pub proof fn lemma_display_order_total(a: PeerStatus, b: PeerStatus, c: PeerStatus)
    ensures
        shown_before(a, b) || shown_before(b, a),
        shown_before(a, b) && shown_before(b, c) ==> shown_before(a, c),
        shown_before(a, b) && shown_before(b, a) ==> a.last_handshake == b.last_handshake && a.ip
            == b.ip,
{
}

/// No two entries share an address.
pub open spec fn addresses_distinct(s: Seq<PeerStatus>) -> bool {
    forall|i: int, j: int| 0 <= i < s.len() && 0 <= j < s.len() && i != j ==> (#[trigger] s[i]).ip
        != (#[trigger] s[j]).ip
}

/// Two lists in display order with the same entries are equal when no two
/// entries share an address: sorting the same peers twice shows them in the
/// same order.
pub proof fn lemma_display_order_unique(a: Seq<PeerStatus>, b: Seq<PeerStatus>)
    requires
        in_display_order(a),
        in_display_order(b),
        a.to_multiset() == b.to_multiset(),
        addresses_distinct(a),
    ensures
        a == b,
    decreases a.len(),
{
    a.to_multiset_ensures();
    b.to_multiset_ensures();
    if a.len() == 0 {
        assert(b.len() == 0);
        assert(a =~= b);
    } else {
        assert(b.len() == a.len());
        assert(a.contains(a[0]));
        assert(a.to_multiset().count(a[0]) > 0);
        assert(b.to_multiset().count(a[0]) > 0);
        assert(b.contains(a[0]));
        assert(b.contains(b[0]));
        assert(b.to_multiset().count(b[0]) > 0);
        assert(a.to_multiset().count(b[0]) > 0);
        assert(a.contains(b[0]));
        let k = choose|k: int| 0 <= k < b.len() && b[k] == a[0];
        let m = choose|m: int| 0 <= m < a.len() && a[m] == b[0];
        if k > 0 {
            assert(shown_before(b[0], b[k]));
        }
        if m > 0 {
            assert(shown_before(a[0], a[m]));
        }
        lemma_display_order_total(a[0], b[0], b[0]);
        assert(a[m].ip == a[0].ip);
        assert(m == 0);
        assert(a[0] == b[0]);
        let a1 = a.remove(0);
        let b1 = b.remove(0);
        assert(a1 =~= a.drop_first());
        assert(b1 =~= b.drop_first());
        assert(a1.to_multiset() == a.to_multiset().remove(a[0]));
        assert(b1.to_multiset() == b.to_multiset().remove(b[0]));
        assert forall|j: int, k2: int| 0 <= j < k2 < a1.len() implies shown_before(
            #[trigger] a1[j],
            #[trigger] a1[k2],
        ) by {
            assert(a1[j] == a[j + 1] && a1[k2] == a[k2 + 1]);
        }
        assert forall|j: int, k2: int| 0 <= j < k2 < b1.len() implies shown_before(
            #[trigger] b1[j],
            #[trigger] b1[k2],
        ) by {
            assert(b1[j] == b[j + 1] && b1[k2] == b[k2 + 1]);
        }
        assert forall|i: int, j: int|
            0 <= i < a1.len() && 0 <= j < a1.len() && i != j implies (#[trigger] a1[i]).ip != (
            #[trigger] a1[j]).ip by {
            assert(a1[i] == a[i + 1] && a1[j] == a[j + 1]);
        }
        lemma_display_order_unique(a1, b1);
        assert(a =~= b) by {
            assert forall|i: int| 0 <= i < a.len() implies a[i] == b[i] by {
                if i > 0 {
                    assert(a[i] == a1[i - 1] && b[i] == b1[i - 1]);
                }
            }
        }
    }
}

fn shown_before_exec(a: &PeerStatus, b: &PeerStatus) -> (r: bool)
    ensures
        r == shown_before(*a, *b),
{
    match (a.last_handshake, b.last_handshake) {
        (Some(x), Some(y)) => x > y || (x == y && a.ip <= b.ip),
        (Some(_), None) => true,
        (None, Some(_)) => false,
        (None, None) => a.ip <= b.ip,
    }
}

/// The peers in display order.
pub fn sort_for_display(peers: &Vec<PeerStatus>) -> (r: Vec<PeerStatus>)
    ensures
        in_display_order(r@),
        r@.to_multiset() == peers@.to_multiset(),
{
    broadcast use vstd::seq_lib::group_to_multiset_ensures;

    let mut out: Vec<PeerStatus> = Vec::new();
    let mut i: usize = 0;
    while i < peers.len()
        invariant
            i <= peers@.len(),
            in_display_order(out@),
            out@.to_multiset() == peers@.subrange(0, i as int).to_multiset(),
        decreases peers@.len() - i,
    {
        let x = peers[i];
        let mut pos: usize = 0;
        while pos < out.len() && shown_before_exec(&out[pos], &x)
            invariant
                pos <= out@.len(),
                forall|j: int| 0 <= j < pos ==> shown_before(#[trigger] out@[j], x),
            decreases out@.len() - pos,
        {
            pos = pos + 1;
        }
        let ghost before = out@;
        out.insert(pos, x);
        proof {
            to_multiset_insert(before, pos as int, x);
            assert(out@ == before.insert(pos as int, x));
            assert(peers@.subrange(0, i + 1) =~= peers@.subrange(0, i as int).push(x));
            peers@.subrange(0, i as int).to_multiset_ensures();
            assert(peers@.subrange(0, i + 1).to_multiset() == peers@.subrange(
                0,
                i as int,
            ).to_multiset().insert(x));
            assert forall|j: int, k: int| 0 <= j < k < out@.len() implies shown_before(
                #[trigger] out@[j],
                #[trigger] out@[k],
            ) by {
                if k < pos {
                    assert(out@[j] == before[j] && out@[k] == before[k]);
                } else if k == pos {
                    assert(out@[j] == before[j]);
                } else if j == pos {
                    assert(out@[k] == before[k - 1]);
                    lemma_display_order_total(x, before[pos as int], before[k - 1]);
                    if k - 1 > pos {
                        assert(shown_before(before[pos as int], before[k - 1]));
                    }
                } else if j < pos {
                    assert(out@[j] == before[j] && out@[k] == before[k - 1]);
                } else {
                    assert(out@[j] == before[j - 1] && out@[k] == before[k - 1]);
                }
            }
        }
        i = i + 1;
    }
    assert(peers@.subrange(0, peers@.len() as int) =~= peers@);
    out
}

} // verus!
