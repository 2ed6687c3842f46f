//! Associations: unordered edges between two address blocks that grant their
//! peers mutual visibility.

use crate::model::ValidationError;
use vstd::prelude::*;

verus! {

/// An edge between the blocks `cidr_id_1` and `cidr_id_2`.
#[derive(Clone, Copy, Debug, PartialEq, Eq, Structural)]
pub struct Association {
    pub id: i64,
    pub cidr_id_1: i64,
    pub cidr_id_2: i64,
}

impl Association {
    /// The edge joins blocks `x` and `y`, in either order.
    pub open spec fn joins(&self, x: i64, y: i64) -> bool {
        (self.cidr_id_1 == x && self.cidr_id_2 == y) || (self.cidr_id_1 == y && self.cidr_id_2
            == x)
    }

    pub fn connects(&self, x: i64, y: i64) -> (r: bool)
        ensures
            r == self.joins(x, y),
    {
        (self.cidr_id_1 == x && self.cidr_id_2 == y) || (self.cidr_id_1 == y && self.cidr_id_2
            == x)
    }
}

/// A set of associations without self-edges or repeated edges.
pub struct AssociationSet {
    items: Vec<Association>,
}

impl AssociationSet {
    /// The associations, in the order they were added.
    pub closed spec fn edges(&self) -> Seq<Association> {
        self.items@
    }

    /// Some association of the set joins `x` and `y`.
    pub open spec fn has_edge(&self, x: i64, y: i64) -> bool {
        exists|i: int| 0 <= i < self.edges().len() && (#[trigger] self.edges()[i]).joins(x, y)
    }

    pub open spec fn wf(&self) -> bool {
        &&& forall|i: int|
            0 <= i < self.edges().len() ==> (#[trigger] self.edges()[i]).cidr_id_1
                != self.edges()[i].cidr_id_2
        &&& forall|i: int, j: int|
            0 <= i < self.edges().len() && 0 <= j < self.edges().len() && i != j ==> !(
            #[trigger] self.edges()[i]).joins(
                (#[trigger] self.edges()[j]).cidr_id_1,
                self.edges()[j].cidr_id_2,
            )
    }

    pub fn new() -> (r: AssociationSet)
        ensures
            r.wf(),
            r.edges().len() == 0,
    {
        AssociationSet { items: Vec::new() }
    }

    pub fn len(&self) -> (r: usize)
        ensures
            r == self.edges().len(),
    {
        self.items.len()
    }

    pub fn get(&self, i: usize) -> (r: Association)
        requires
            i < self.edges().len(),
        ensures
            r == self.edges()[i as int],
    {
        self.items[i]
    }

    /// Whether the blocks `x` and `y` are associated, in either order.
    pub fn contains(&self, x: i64, y: i64) -> (r: bool)
        ensures
            r == self.has_edge(x, y),
    {
        let mut i: usize = 0;
        while i < self.items.len()
            invariant
                i <= self.edges().len(),
                forall|j: int| 0 <= j < i ==> !(#[trigger] self.edges()[j]).joins(x, y),
            decreases self.edges().len() - i,
        {
            if self.items[i].connects(x, y) {
                return true;
            }
            i = i + 1;
        }
        false
    }

    /// Adds an association, refusing a self-edge and an edge that the set
    /// holds already in either order.
    pub fn insert(&mut self, a: Association) -> (r: Result<(), ValidationError>)
        requires
            old(self).wf(),
        ensures
            final(self).wf(),
            match r {
                Ok(()) => {
                    &&& a.cidr_id_1 != a.cidr_id_2
                    &&& !old(self).has_edge(a.cidr_id_1, a.cidr_id_2)
                    &&& final(self).edges() == old(self).edges().push(a)
                },
                Err(e) => {
                    &&& final(self).edges() == old(self).edges()
                    &&& a.cidr_id_1 == a.cidr_id_2 || old(self).has_edge(a.cidr_id_1, a.cidr_id_2)
                    &&& (e == ValidationError::SelfAssociation) == (a.cidr_id_1 == a.cidr_id_2)
                    &&& (e == ValidationError::DuplicateAssociation) == (a.cidr_id_1 != a.cidr_id_2
                        && old(self).has_edge(a.cidr_id_1, a.cidr_id_2))
                },
            },
    {
        if a.cidr_id_1 == a.cidr_id_2 {
            return Err(ValidationError::SelfAssociation);
        }
        if self.contains(a.cidr_id_1, a.cidr_id_2) {
            return Err(ValidationError::DuplicateAssociation);
        }
        self.items.push(a);
        proof {
            let s = self.edges();
            assert forall|i: int, j: int|
                0 <= i < s.len() && 0 <= j < s.len() && i != j implies !(#[trigger] s[i]).joins(
                (#[trigger] s[j]).cidr_id_1,
                s[j].cidr_id_2,
            ) by {
                if i == s.len() - 1 {
                    assert(!old(self).edges()[j].joins(a.cidr_id_1, a.cidr_id_2));
                } else if j == s.len() - 1 {
                    assert(!old(self).edges()[i].joins(a.cidr_id_1, a.cidr_id_2));
                } else {
                    assert(s[i] == old(self).edges()[i] && s[j] == old(self).edges()[j]);
                }
            }
        }
        Ok(())
    }

    /// Builds a set from a list, refusing the list at its first self-edge or
    /// first edge that repeats an earlier one in either order.
    pub fn from_list(list: &Vec<Association>) -> (r: Result<AssociationSet, ValidationError>)
        ensures
            match r {
                Ok(s) => list_valid(list@) && s.wf() && s.edges() == list@,
                Err(e) => exists|i: int|
                    0 <= i < list@.len() && first_bad_edge(list@, i) && (e
                        == ValidationError::SelfAssociation) == (list@[i].cidr_id_1
                        == list@[i].cidr_id_2) && (e == ValidationError::DuplicateAssociation) == (
                    list@[i].cidr_id_1 != list@[i].cidr_id_2 && joined_before(list@, i)),
            },
    {
        let mut s = AssociationSet::new();
        let mut i: usize = 0;
        while i < list.len()
            invariant
                i <= list@.len(),
                s.wf(),
                s.edges() == list@.subrange(0, i as int),
                forall|j: int| 0 <= j < i ==> #[trigger] edge_ok_at(list@, j),
            decreases list@.len() - i,
        {
            proof {
                assert(s.has_edge(list@[i as int].cidr_id_1, list@[i as int].cidr_id_2)
                    == joined_before(list@, i as int)) by {
                    if joined_before(list@, i as int) {
                        let j = choose|j: int|
                            0 <= j < i && (#[trigger] list@[j]).joins(
                                list@[i as int].cidr_id_1,
                                list@[i as int].cidr_id_2,
                            );
                        assert(s.edges()[j] == list@[j]);
                    }
                    if s.has_edge(list@[i as int].cidr_id_1, list@[i as int].cidr_id_2) {
                        let j = choose|j: int|
                            0 <= j < s.edges().len() && (#[trigger] s.edges()[j]).joins(
                                list@[i as int].cidr_id_1,
                                list@[i as int].cidr_id_2,
                            );
                        assert(s.edges()[j] == list@[j]);
                    }
                }
            }
            match s.insert(list[i]) {
                Ok(()) => {},
                Err(e) => {
                    assert(first_bad_edge(list@, i as int));
                    return Err(e);
                },
            }
            assert(edge_ok_at(list@, i as int));
            assert(s.edges() =~= list@.subrange(0, i + 1));
            i = i + 1;
        }
        assert(list@.subrange(0, list@.len() as int) =~= list@);
        Ok(s)
    }
}

/// Some edge before position `i` of `s` joins the two blocks of edge `i`.
pub open spec fn joined_before(s: Seq<Association>, i: int) -> bool {
    exists|j: int| 0 <= j < i && (#[trigger] s[j]).joins(s[i].cidr_id_1, s[i].cidr_id_2)
}

/// Edge `i` of `s` joins two distinct blocks and repeats no earlier edge.
pub open spec fn edge_ok_at(s: Seq<Association>, i: int) -> bool {
    s[i].cidr_id_1 != s[i].cidr_id_2 && !joined_before(s, i)
}

/// No self-edge and no edge repeated, in either order.
pub open spec fn list_valid(s: Seq<Association>) -> bool {
    forall|i: int| 0 <= i < s.len() ==> #[trigger] edge_ok_at(s, i)
}

/// Edge `i` is the first edge of `s` that is not in order.
pub open spec fn first_bad_edge(s: Seq<Association>, i: int) -> bool {
    &&& !edge_ok_at(s, i)
    &&& forall|j: int| 0 <= j < i ==> #[trigger] edge_ok_at(s, j)
}

/// Symmetry: an association joins `x` and `y` exactly when it joins `y` and
/// `x`, so a set holds the edge in one order exactly when it holds it in the
/// other.
pub proof fn lemma_association_symmetric(s: &AssociationSet, a: Association, x: i64, y: i64)
    ensures
        a.joins(x, y) == a.joins(y, x),
        s.has_edge(x, y) == s.has_edge(y, x),
{
    if s.has_edge(x, y) {
        let i = choose|i: int| 0 <= i < s.edges().len() && (#[trigger] s.edges()[i]).joins(x, y);
        assert(s.edges()[i].joins(y, x));
    }
    if s.has_edge(y, x) {
        let i = choose|i: int| 0 <= i < s.edges().len() && (#[trigger] s.edges()[i]).joins(y, x);
        assert(s.edges()[i].joins(x, y));
    }
}

} // verus!
