//! The containment forest of address blocks: each block's parent is the
//! smallest other block that strictly contains it. Nodes live in an arena and
//! refer to their parent by index.

use crate::model::{block_size, Cidr, ValidationError};
use vstd::arithmetic::power2::{lemma_pow2_pos, lemma_pow2_strictly_increases};
use vstd::prelude::*;
use vstd::set_lib::{lemma_int_range, lemma_len_subset, set_int_range};

verus! {

/// Every block has a valid prefix, and any two blocks are either disjoint or
/// one strictly contains the other.
pub open spec fn well_nested(cs: Seq<Cidr>) -> bool {
    &&& all_prefixes_valid(cs)
    &&& forall|i: int, j: int|
        0 <= i < cs.len() && 0 <= j < cs.len() && i != j ==> #[trigger] pair_nested(cs, i, j)
}

/// Blocks `i` and `j` of `cs` are disjoint, or one strictly contains the other.
pub open spec fn pair_nested(cs: Seq<Cidr>, i: int, j: int) -> bool {
    ||| cs[i].disjoint(&cs[j])
    ||| cs[i].strictly_contains(&cs[j])
    ||| cs[j].strictly_contains(&cs[i])
}

pub open spec fn all_prefixes_valid(cs: Seq<Cidr>) -> bool {
    forall|i: int| 0 <= i < cs.len() ==> (#[trigger] cs[i]).valid()
}

/// Some block of `cs` strictly contains block `i`.
pub open spec fn has_container(cs: Seq<Cidr>, i: int) -> bool {
    exists|k: int| 0 <= k < cs.len() && (#[trigger] cs[k]).strictly_contains(&cs[i])
}

/// Block `p` is a smallest block of `cs` that strictly contains block `i`.
pub open spec fn is_smallest_container(cs: Seq<Cidr>, p: int, i: int) -> bool {
    &&& 0 <= p < cs.len()
    &&& cs[p].strictly_contains(&cs[i])
    &&& forall|k: int|
        0 <= k < cs.len() && (#[trigger] cs[k]).strictly_contains(&cs[i]) ==> block_size(
            cs[p].prefix_len,
        ) <= block_size(cs[k].prefix_len)
}

/// `parent` is the right parent entry for block `i`.
pub open spec fn parent_correct(cs: Seq<Cidr>, parent: Option<usize>, i: int) -> bool {
    match parent {
        Some(p) => is_smallest_container(cs, p as int, i),
        None => !has_container(cs, i),
    }
}

/// A forest of address blocks built from a flat list.
pub struct CidrTree {
    cidrs: Vec<Cidr>,
    parents: Vec<Option<usize>>,
}

impl CidrTree {
    /// The blocks, in the order of the list the tree was built from.
    pub closed spec fn nodes(&self) -> Seq<Cidr> {
        self.cidrs@
    }

    /// The parent index of each block; `None` for a root.
    pub closed spec fn parent_of(&self) -> Seq<Option<usize>> {
        self.parents@
    }

    pub open spec fn wf(&self) -> bool {
        &&& self.parent_of().len() == self.nodes().len()
        &&& well_nested(self.nodes())
        &&& forall|i: int|
            0 <= i < self.nodes().len() ==> parent_correct(
                self.nodes(),
                #[trigger] self.parent_of()[i],
                i,
            )
    }

    /// Builds the forest, or refuses a list with an invalid prefix or two
    /// partially overlapping (or equal) blocks.
    pub fn new(cidrs: Vec<Cidr>) -> (r: Result<CidrTree, ValidationError>)
        ensures
            match r {
                Ok(t) => t.wf() && t.nodes() == cidrs@,
                Err(e) => {
                    &&& !well_nested(cidrs@)
                    &&& (e == ValidationError::InvalidPrefix) == !all_prefixes_valid(cidrs@)
                    &&& e == ValidationError::InvalidPrefix || e == ValidationError::PartialOverlap
                },
            },
    {
        let n = cidrs.len();
        let mut ranges: Vec<(u64, u64)> = Vec::new();
        let mut i: usize = 0;
        while i < n
            invariant
                n == cidrs@.len(),
                i <= n,
                ranges@.len() == i,
                forall|a: int| 0 <= a < i ==> (#[trigger] cidrs@[a]).valid(),
                forall|a: int|
                    0 <= a < i ==> (#[trigger] ranges@[a]).0 == cidrs@[a].first() && ranges@[a].1
                        == cidrs@[a].end(),
            decreases n - i,
        {
            if cidrs[i].prefix_len > 32 {
                assert(!cidrs@[i as int].valid());
                return Err(ValidationError::InvalidPrefix);
            }
            ranges.push(cidrs[i].range());
            i = i + 1;
        }
        let mut i: usize = 0;
        while i < n
            invariant
                n == cidrs@.len(),
                i <= n,
                ranges@.len() == n,
                all_prefixes_valid(cidrs@),
                forall|a: int|
                    0 <= a < n ==> (#[trigger] ranges@[a]).0 == cidrs@[a].first() && ranges@[a].1
                        == cidrs@[a].end(),
                forall|a: int, b: int|
                    0 <= a < i && 0 <= b < n && a != b ==> #[trigger] pair_nested(cidrs@, a, b),
            decreases n - i,
        {
            let mut j: usize = 0;
            while j < n
                invariant
                    n == cidrs@.len(),
                    i < n,
                    j <= n,
                    ranges@.len() == n,
                    all_prefixes_valid(cidrs@),
                    forall|a: int|
                        0 <= a < n ==> (#[trigger] ranges@[a]).0 == cidrs@[a].first()
                            && ranges@[a].1 == cidrs@[a].end(),
                    forall|a: int, b: int|
                        0 <= a < i && 0 <= b < n && a != b ==> #[trigger] pair_nested(cidrs@, a, b),
                    forall|b: int|
                        0 <= b < j && i != b ==> #[trigger] pair_nested(cidrs@, i as int, b),
                decreases n - j,
            {
                if i != j {
                    let (fi, ei) = ranges[i];
                    let (fj, ej) = ranges[j];
                    let disjoint = ei <= fj || ej <= fi;
                    let same = fi == fj && ei == ej;
                    let i_holds_j = fi <= fj && ej <= ei && !same;
                    let j_holds_i = fj <= fi && ei <= ej && !same;
                    if !(disjoint || i_holds_j || j_holds_i) {
                        assert(!pair_nested(cidrs@, i as int, j as int));
                        return Err(ValidationError::PartialOverlap);
                    }
                }
                j = j + 1;
            }
            i = i + 1;
        }
        let mut parents: Vec<Option<usize>> = Vec::new();
        let mut i: usize = 0;
        while i < n
            invariant
                n == cidrs@.len(),
                i <= n,
                ranges@.len() == n,
                parents@.len() == i,
                well_nested(cidrs@),
                forall|a: int|
                    0 <= a < n ==> (#[trigger] ranges@[a]).0 == cidrs@[a].first() && ranges@[a].1
                        == cidrs@[a].end(),
                forall|a: int| 0 <= a < i ==> parent_correct(cidrs@, #[trigger] parents@[a], a),
            decreases n - i,
        {
            let mut best: Option<usize> = None;
            let mut k: usize = 0;
            while k < n
                invariant
                    n == cidrs@.len(),
                    i < n,
                    k <= n,
                    ranges@.len() == n,
                    well_nested(cidrs@),
                    forall|a: int|
                        0 <= a < n ==> (#[trigger] ranges@[a]).0 == cidrs@[a].first()
                            && ranges@[a].1 == cidrs@[a].end(),
                    match best {
                        Some(p) => {
                            &&& p < n
                            &&& cidrs@[p as int].strictly_contains(&cidrs@[i as int])
                            &&& forall|c: int|
                                0 <= c < k && (#[trigger] cidrs@[c]).strictly_contains(
                                    &cidrs@[i as int],
                                ) ==> block_size(cidrs@[p as int].prefix_len) <= block_size(
                                    cidrs@[c].prefix_len,
                                )
                        },
                        None => forall|c: int|
                            0 <= c < k ==> !(#[trigger] cidrs@[c]).strictly_contains(
                                &cidrs@[i as int],
                            ),
                    },
                decreases n - k,
            {
                let (fi, ei) = ranges[i];
                let (fk, ek) = ranges[k];
                if fk <= fi && ei <= ek && !(fk == fi && ek == ei) {
                    match best {
                        None => {
                            best = Some(k);
                        },
                        Some(p) => {
                            let (fp, ep) = ranges[p];
                            if ek - fk < ep - fp {
                                best = Some(k);
                            }
                        },
                    }
                }
                k = k + 1;
            }
            parents.push(best);
            i = i + 1;
        }
        Ok(CidrTree { cidrs, parents })
    }

    pub fn len(&self) -> (r: usize)
        ensures
            r == self.nodes().len(),
    {
        self.cidrs.len()
    }

    pub fn cidr(&self, i: usize) -> (r: &Cidr)
        requires
            i < self.nodes().len(),
        ensures
            *r == self.nodes()[i as int],
    {
        &self.cidrs[i]
    }

    /// Index of the smallest block that strictly contains block `i`.
    pub fn parent(&self, i: usize) -> (r: Option<usize>)
        requires
            self.wf(),
            i < self.nodes().len(),
        ensures
            r == self.parent_of()[i as int],
    {
        self.parents[i]
    }

    /// Indices, in increasing order, of the blocks whose parent entry is `p`.
    fn with_parent(&self, p: Option<usize>) -> (r: Vec<usize>)
        requires
            self.wf(),
        ensures
            forall|j: int, k: int| 0 <= j < k < r@.len() ==> r@[j] < r@[k],
            forall|j: int| 0 <= j < r@.len() ==> #[trigger] r@[j] < self.nodes().len(),
            forall|c: int|
                0 <= c < self.nodes().len() ==> (self.parent_of()[c] == p <==> r@.contains(
                    c as usize,
                )),
    {
        let mut r: Vec<usize> = Vec::new();
        let mut c: usize = 0;
        while c < self.parents.len()
            invariant
                self.wf(),
                c <= self.parents@.len(),
                forall|j: int, k: int| 0 <= j < k < r@.len() ==> r@[j] < r@[k],
                forall|j: int| 0 <= j < r@.len() ==> #[trigger] r@[j] < c,
                forall|d: int|
                    0 <= d < c ==> (self.parent_of()[d] == p <==> r@.contains(d as usize)),
            decreases self.parents@.len() - c,
        {
            let same = match (self.parents[c], p) {
                (Some(a), Some(b)) => a == b,
                (None, None) => true,
                _ => false,
            };
            assert(same == (self.parent_of()[c as int] == p));
            let ghost before = r@;
            if same {
                r.push(c);
            }
            proof {
                assert forall|d: int| 0 <= d <= c implies (self.parent_of()[d] == p
                    <==> r@.contains(d as usize)) by {
                    if same {
                        assert(r@ == before.push(c));
                        if d < c && r@.contains(d as usize) {
                            let w = choose|w: int| 0 <= w < r@.len() && r@[w] == d as usize;
                            assert(before[w] == d as usize);
                        }
                        if d < c && before.contains(d as usize) {
                            let w = choose|w: int| 0 <= w < before.len() && before[w] == d as usize;
                            assert(r@[w] == d as usize);
                        }
                        if d == c {
                            assert(r@[r@.len() - 1] == c);
                        }
                    } else if d == c && r@.contains(d as usize) {
                        let w = choose|w: int| 0 <= w < r@.len() && r@[w] == d as usize;
                        assert(r@[w] < c);
                    }
                }
            }
            c = c + 1;
        }
        r
    }

    /// The immediate children of block `i`, in increasing index order.
    pub fn children(&self, i: usize) -> (r: Vec<usize>)
        requires
            self.wf(),
            i < self.nodes().len(),
        ensures
            forall|j: int, k: int| 0 <= j < k < r@.len() ==> r@[j] < r@[k],
            forall|j: int| 0 <= j < r@.len() ==> #[trigger] r@[j] < self.nodes().len(),
            forall|c: int|
                0 <= c < self.nodes().len() ==> (self.parent_of()[c] == Some(i)
                    <==> r@.contains(c as usize)),
    {
        self.with_parent(Some(i))
    }

    /// The blocks that no other block contains, in increasing index order.
    pub fn roots(&self) -> (r: Vec<usize>)
        requires
            self.wf(),
        ensures
            forall|j: int, k: int| 0 <= j < k < r@.len() ==> r@[j] < r@[k],
            forall|j: int| 0 <= j < r@.len() ==> #[trigger] r@[j] < self.nodes().len(),
            forall|c: int|
                0 <= c < self.nodes().len() ==> (self.parent_of()[c] == None::<usize>
                    <==> r@.contains(c as usize)),
    {
        self.with_parent(None)
    }

    /// Walks the forest depth first with an explicit stack, for rendering.
    /// Each block appears exactly once, after an entry of its parent, paired
    /// with its indentation level: 0 for a root, one more than its parent's
    /// otherwise. Each block is followed at once by the blocks it contains,
    /// and blocks with the same parent come in increasing index order; these
    /// facts leave one order only, so every walk of a tree gives the same.
    pub fn walk(&self) -> (r: Vec<(usize, usize)>)
        requires
            self.wf(),
        ensures
            forall|k: int| 0 <= k < r@.len() ==> (#[trigger] r@[k]).0 < self.nodes().len(),
            nodes_distinct(r@),
            forall|c: int| 0 <= c < self.nodes().len() ==> has_node(r@, c),
            levels_follow_parents(self.parent_of(), r@),
            siblings_ordered(self.parent_of(), r@),
            subtrees_contiguous(self.nodes(), r@),
    {
        let n = self.cidrs.len();
        let roots = self.roots();
        let mut stack: Vec<(usize, usize)> = Vec::new();
        let mut m = roots.len();
        while m > 0
            invariant
                self.wf(),
                n == self.nodes().len(),
                m <= roots@.len(),
                forall|j: int, k: int| 0 <= j < k < roots@.len() ==> roots@[j] < roots@[k],
                forall|j: int| 0 <= j < roots@.len() ==> #[trigger] roots@[j] < n,
                forall|c: int|
                    0 <= c < n ==> (self.parent_of()[c] == None::<usize> <==> roots@.contains(
                        c as usize,
                    )),
                forall|k: int|
                    0 <= k < stack@.len() ==> (#[trigger] stack@[k]).1 == 0 && stack@[k].0 < n,
                nodes_distinct(stack@),
                forall|c: int|
                    #![trigger has_node(stack@, c)]
                    has_node(stack@, c) <==> in_from(roots@, m as int, c),
                stack@.len() == roots@.len() - m,
                forall|k: int|
                    0 <= k < stack@.len() ==> (#[trigger] stack@[k]).0 == roots@[roots@.len() - 1
                        - k],
            decreases m,
        {
            m = m - 1;
            let ghost before = stack@;
            stack.push((roots[m], 0));
            proof {
                assert forall|k: int| 0 <= k < stack@.len() implies (#[trigger] stack@[k]).0
                    == roots@[roots@.len() - 1 - k] by {
                    if k < before.len() {
                        assert(stack@[k] == before[k]);
                    }
                }
                lemma_has_node_push(before, (roots@[m as int], 0usize));
                assert forall|j: int, k: int| 0 <= j < k < stack@.len() implies (
                #[trigger] stack@[j]).0 != (#[trigger] stack@[k]).0 by {
                    if k == stack@.len() - 1 {
                        assert(has_node(before, stack@[j].0 as int));
                        assert(in_from(roots@, m + 1, stack@[j].0 as int));
                        let w = choose|w: int|
                            m + 1 <= w < roots@.len() && #[trigger] roots@[w] as int == stack@[j].0 as int;
                    }
                }
                lemma_in_from_step(roots@, m as int);
                assert forall|c: int|
                    #![trigger has_node(stack@, c)]
                    has_node(stack@, c) <==> in_from(roots@, m as int, c) by {
                    assert(has_node(before, c) <==> in_from(roots@, m + 1, c));
                    assert(in_from(roots@, m as int, c) <== (in_from(roots@, m + 1, c) || roots@[m as int] as int == c));
                }
            }
        }
        proof {
            assert forall|c: int|
                0 <= c < n implies (has_node(stack@, c) <==> parent_reached(
                    self.parent_of(),
                    seq![],
                    c,
                )) by {
                if self.parent_of()[c] == None::<usize> {
                    let w = choose|w: int| 0 <= w < roots@.len() && roots@[w] == c as usize;
                    assert(roots@[w] as int == c);
                }
                if has_node(stack@, c) {
                    let w = choose|w: int| 0 <= w < roots@.len() && #[trigger] roots@[w] as int == c;
                    assert(roots@.contains(c as usize));
                }
            }
            assert forall|k: int| 0 <= k < stack@.len() implies self.parent_of()[(
            #[trigger] stack@[k]).0 as int] == None::<usize> by {
                assert(roots@.contains(roots@[roots@.len() - 1 - k]));
            }
            assert forall|a: int, b: int|
                0 <= a < b < stack@.len() implies (#[trigger] stack@[a]).0 > (
            #[trigger] stack@[b]).0 by {
                assert(roots@[roots@.len() - 1 - b] < roots@[roots@.len() - 1 - a]);
            }
            assert forall|k: int| 0 <= k < stack@.len() implies level_fits(
                self.parent_of(),
                seq![],
                #[trigger] stack@[k],
                0,
            ) by {
                let c = stack@[k].0 as int;
                assert(has_node(stack@, c));
                let w = choose|w: int| 0 <= w < roots@.len() && #[trigger] roots@[w] as int == c;
                assert(roots@[w] == c as usize);
                assert(roots@.contains(c as usize));
            }
        }
        let mut out: Vec<(usize, usize)> = Vec::new();
        while stack.len() > 0
            invariant
                self.wf(),
                n == self.nodes().len(),
                forall|k: int| 0 <= k < out@.len() ==> (#[trigger] out@[k]).0 < n,
                forall|k: int| 0 <= k < stack@.len() ==> (#[trigger] stack@[k]).0 < n,
                forall|k: int| 0 <= k < out@.len() ==> (#[trigger] out@[k]).1 <= k,
                forall|k: int| 0 <= k < stack@.len() ==> (#[trigger] stack@[k]).1 <= out@.len(),
                nodes_distinct(out@),
                nodes_distinct(stack@),
                forall|c: int| !(has_node(out@, c) && has_node(stack@, c)),
                forall|c: int|
                    0 <= c < n ==> (has_node(out@, c) || has_node(stack@, c) <==> parent_reached(
                        self.parent_of(),
                        out@,
                        c,
                    )),
                levels_follow_parents(self.parent_of(), out@),
                forall|k: int|
                    0 <= k < stack@.len() ==> level_fits(
                        self.parent_of(),
                        out@,
                        #[trigger] stack@[k],
                        out@.len() as int,
                    ),
                siblings_ordered(self.parent_of(), out@),
                subtrees_contiguous(self.nodes(), out@),
                out@.len() == 0 ==> forall|k: int|
                    0 <= k < stack@.len() ==> self.parent_of()[(#[trigger] stack@[k]).0 as int]
                        == None::<usize>,
                out@.len() > 0 ==> forall|k: int|
                    0 <= k < stack@.len() ==> parent_at_or_above(
                        self.nodes(),
                        self.parent_of()[(#[trigger] stack@[k]).0 as int],
                        out@[out@.len() - 1].0 as int,
                    ),
                stack_ordered(self.nodes(), self.parent_of(), stack@),
                forall|j: int, k: int|
                    0 <= j < out@.len() && 0 <= k < stack@.len() && self.parent_of()[(
                    #[trigger] out@[j]).0 as int] == self.parent_of()[(
                    #[trigger] stack@[k]).0 as int] ==> out@[j].0 < stack@[k].0,
            decreases n - out@.len(),
        {
            let ghost out0 = out@;
            let ghost stack0 = stack@;
            let (i, l) = stack.pop().unwrap();
            proof {
                assert(stack0 == stack@.push((i, l)));
                lemma_has_node_push(stack@, (i, l));
                assert(!has_node(stack@, i as int)) by {
                    if has_node(stack@, i as int) {
                        let k = choose|k: int| 0 <= k < stack@.len() && (#[trigger] stack@[k]).0 == i as int;
                        assert(stack0[k].0 == stack0[stack0.len() - 1].0);
                    }
                }
                assert(has_node(stack0, i as int));
            }
            out.push((i, l));
            proof {
                lemma_has_node_push(out0, (i, l));
                assert(nodes_distinct(out@)) by {
                    assert forall|j: int, k: int| 0 <= j < k < out@.len() implies (
                    #[trigger] out@[j]).0 != (#[trigger] out@[k]).0 by {
                        if k == out@.len() - 1 {
                            assert(has_node(out0, out@[j].0 as int));
                        } else {
                            assert(out@[j] == out0[j] && out@[k] == out0[k]);
                        }
                    }
                }
                lemma_distinct_bounded(out@, n as int);
                lemma_walk_order_step(self, out0, stack0, out@, stack@);
                assert(levels_follow_parents(self.parent_of(), out@)) by {
                    assert forall|k: int| 0 <= k < out@.len() implies level_fits(
                        self.parent_of(),
                        out@,
                        #[trigger] out@[k],
                        k,
                    ) by {
                        if k < out0.len() {
                            assert(out@[k] == out0[k]);
                            assert(level_fits(self.parent_of(), out0, out0[k], k));
                            lemma_level_fits_grow(self.parent_of(), out0, out@, out0[k], k, k);
                        } else {
                            assert(level_fits(self.parent_of(), out0, (i, l), out0.len() as int));
                            lemma_level_fits_grow(
                                self.parent_of(),
                                out0,
                                out@,
                                (i, l),
                                out0.len() as int,
                                k,
                            );
                        }
                    }
                }
                assert forall|k: int| 0 <= k < stack@.len() implies level_fits(
                    self.parent_of(),
                    out@,
                    #[trigger] stack@[k],
                    out@.len() as int,
                ) by {
                    assert(stack@[k] == stack0[k]);
                    assert(level_fits(self.parent_of(), out0, stack0[k], out0.len() as int));
                    lemma_level_fits_grow(
                        self.parent_of(),
                        out0,
                        out@,
                        stack@[k],
                        out0.len() as int,
                        out@.len() as int,
                    );
                }
            }
            let kids = self.children(i);
            let ghost stack1 = stack@;
            let mut m = kids.len();
            while m > 0
                invariant
                    self.wf(),
                    n == self.nodes().len(),
                    i < n,
                    out@.len() <= n,
                    l + 1 <= out@.len(),
                    has_node(out@, i as int),
                    out@[out@.len() - 1] == (i, l),
                    m <= kids@.len(),
                    forall|j: int, k: int| 0 <= j < k < kids@.len() ==> kids@[j] < kids@[k],
                    forall|j: int| 0 <= j < kids@.len() ==> #[trigger] kids@[j] < n,
                    forall|c: int|
                        0 <= c < n ==> (self.parent_of()[c] == Some(i) <==> kids@.contains(
                            c as usize,
                        )),
                    forall|c: int|
                        #![trigger self.parent_of()[c]]
                        0 <= c < n && self.parent_of()[c] == Some(i) ==> !has_node(stack1, c)
                            && !has_node(out@, c),
                    forall|k: int| 0 <= k < stack1.len() ==> (#[trigger] stack1[k]).0 < n,
                    forall|k: int| 0 <= k < stack1.len() ==> (#[trigger] stack1[k]).1 <= out@.len(),
                    forall|k: int| 0 <= k < stack1.len() ==> level_fits(self.parent_of(), out@, #[trigger] stack1[k], out@.len() as int),
                    nodes_distinct(stack1),
                    stack@.len() >= stack1.len(),
                    forall|k: int| 0 <= k < stack1.len() ==> stack@[k] == stack1[k],
                    forall|k: int| stack1.len() <= k < stack@.len() ==> (#[trigger] stack@[k]).1 == l + 1,
                    forall|k: int| 0 <= k < stack@.len() ==> (#[trigger] stack@[k]).0 < n,
                    forall|k: int| 0 <= k < stack@.len() ==> (#[trigger] stack@[k]).1 <= out@.len(),
                    forall|k: int| 0 <= k < stack@.len() ==> level_fits(self.parent_of(), out@, #[trigger] stack@[k], out@.len() as int),
                    nodes_distinct(stack@),
                    forall|c: int|
                        #![trigger has_node(stack@, c)]
                        has_node(stack@, c) <==> has_node(stack1, c) || in_from(kids@, m as int, c),
                    forall|k: int| 0 <= k < out@.len() ==> (#[trigger] out@[k]).0 < n,
                    siblings_ordered(self.parent_of(), out@),
                    subtrees_contiguous(self.nodes(), out@),
                    forall|k: int|
                        0 <= k < stack@.len() ==> parent_at_or_above(
                            self.nodes(),
                            self.parent_of()[(#[trigger] stack@[k]).0 as int],
                            i as int,
                        ),
                    stack_ordered(self.nodes(), self.parent_of(), stack@),
                    forall|k: int| stack1.len() <= k < stack@.len() ==> self.parent_of()[(
                        #[trigger] stack@[k]).0 as int] == Some(i),
                    stack@.len() == stack1.len() + kids@.len() - m,
                    forall|k: int|
                        stack1.len() <= k < stack@.len() ==> (#[trigger] stack@[k]).0 == kids@[kids@.len()
                            - 1 - (k - stack1.len())],
                    forall|j: int, k: int|
                        0 <= j < out@.len() && 0 <= k < stack@.len() && self.parent_of()[(
                        #[trigger] out@[j]).0 as int] == self.parent_of()[(
                        #[trigger] stack@[k]).0 as int] ==> out@[j].0 < stack@[k].0,
                decreases m,
            {
                m = m - 1;
                let ghost before = stack@;
                let kid = kids[m];
                stack.push((kid, l + 1));
                proof {
                    assert forall|k: int| stack1.len() <= k < stack@.len() implies (
                    #[trigger] stack@[k]).0 == kids@[kids@.len() - 1 - (k - stack1.len())] by {
                        if k < before.len() {
                            assert(stack@[k] == before[k]);
                        }
                    }
                    assert forall|k: int| 0 <= k < stack1.len() implies self.parent_of()[(
                    #[trigger] stack1[k]).0 as int] != Some(i) by {
                        if self.parent_of()[stack1[k].0 as int] == Some(i) {
                            assert(has_node(stack1, stack1[k].0 as int));
                        }
                    }
                    assert forall|a: int, b: int|
                        0 <= a < b < stack@.len() implies stack_pair_ordered(
                        self.nodes(),
                        self.parent_of(),
                        #[trigger] stack@[a],
                        #[trigger] stack@[b],
                    ) by {
                        if b < before.len() {
                            assert(stack@[a] == before[a] && stack@[b] == before[b]);
                            assert(stack_pair_ordered(self.nodes(), self.parent_of(), before[a], before[b]));
                        } else {
                            assert(stack@[a] == before[a]);
                            assert(parent_at_or_above(self.nodes(), self.parent_of()[before[a].0 as int], i as int));
                            if a < stack1.len() {
                                assert(stack1[a] == stack@[a]);
                            }
                        }
                    }
                    assert forall|j: int, k: int|
                        0 <= j < out@.len() && 0 <= k < stack@.len() && self.parent_of()[(
                        #[trigger] out@[j]).0 as int] == self.parent_of()[(
                        #[trigger] stack@[k]).0 as int] implies out@[j].0 < stack@[k].0 by {
                        if k < before.len() {
                            assert(stack@[k] == before[k]);
                            assert(self.parent_of()[out@[j].0 as int] == self.parent_of()[before[k].0 as int]);
                            assert(out@[j].0 < before[k].0);
                        } else {
                            assert(stack@[k].0 == kid);
                            assert(self.parent_of()[kid as int] == Some(i));
                            let c = out@[j].0 as int;
                            assert(0 <= c < n);
                            assert(self.parent_of()[c] == Some(i));
                            assert(has_node(out@, c));
                            assert(!has_node(out@, c));
                        }
                    }
                    assert forall|k: int| 0 <= k < stack@.len() implies parent_at_or_above(
                        self.nodes(),
                        self.parent_of()[(#[trigger] stack@[k]).0 as int],
                        i as int,
                    ) by {
                        if k < before.len() {
                            assert(stack@[k] == before[k]);
                        }
                    }
                    assert forall|k: int| stack1.len() <= k < stack@.len() implies self.parent_of()[(
                        #[trigger] stack@[k]).0 as int] == Some(i) by {
                        if k < before.len() {
                            assert(stack@[k] == before[k]);
                        }
                    }
                    lemma_has_node_push(before, (kid, (l + 1) as usize));
                    assert(kids@.contains(kid));
                    assert(self.parent_of()[kid as int] == Some(i));
                    assert(level_fits(self.parent_of(), out@, (kid, (l + 1) as usize), out@.len() as int));
                    assert(!has_node(before, kid as int)) by {
                        if has_node(before, kid as int) {
                            if !has_node(stack1, kid as int) {
                                assert(in_from(kids@, m + 1, kid as int));
                                let w = choose|w: int| m + 1 <= w < kids@.len() && #[trigger] kids@[w] as int == kid as int;
                            }
                        }
                    }
                    assert forall|j: int, k: int| 0 <= j < k < stack@.len() implies (
                    #[trigger] stack@[j]).0 != (#[trigger] stack@[k]).0 by {
                        if k == stack@.len() - 1 {
                            assert(has_node(before, stack@[j].0 as int));
                        } else {
                            assert(stack@[j] == before[j] && stack@[k] == before[k]);
                        }
                    }
                    lemma_in_from_step(kids@, m as int);
                    assert forall|c: int|
                        #![trigger has_node(stack@, c)]
                        has_node(stack@, c) <==> has_node(stack1, c) || in_from(kids@, m as int, c) by {
                        assert(has_node(before, c) <==> has_node(stack1, c) || in_from(kids@, m + 1, c));
                        assert(in_from(kids@, m as int, c) <== (in_from(kids@, m + 1, c) || kids@[m as int] as int == c));
                    }
                }
            }
            proof {
                assert forall|c: int| !(has_node(out@, c) && has_node(stack@, c)) by {
                    if has_node(out@, c) && has_node(stack@, c) {
                        if has_node(stack1, c) {
                            assert(has_node(out0, c) || c == i as int);
                        } else {
                            let w = choose|w: int| 0 <= w < kids@.len() && #[trigger] kids@[w] as int == c;
                            assert(kids@.contains(c as usize));
                        }
                    }
                }
                assert forall|c: int|
                    0 <= c < n implies (has_node(out@, c) || has_node(stack@, c) <==> parent_reached(
                        self.parent_of(),
                        out@,
                        c,
                    )) by {
                    if self.parent_of()[c] == Some(i) {
                        assert(kids@.contains(c as usize));
                        let w = choose|w: int| 0 <= w < kids@.len() && kids@[w] == c as usize;
                        assert(kids@[w] as int == c);
                    } else {
                        if has_node(stack@, c) && !has_node(stack1, c) {
                            let w = choose|w: int| 0 <= w < kids@.len() && #[trigger] kids@[w] as int == c;
                            assert(kids@.contains(c as usize));
                        }
                        assert(parent_reached(self.parent_of(), out@, c) == parent_reached(
                            self.parent_of(),
                            out0,
                            c,
                        ));
                        assert(has_node(out0, c) || has_node(stack0, c) <==> has_node(out@, c)
                            || has_node(stack1, c));
                    }
                }
            }
        }
        proof {
            assert forall|c: int| 0 <= c < n implies has_node(out@, c) by {
                lemma_walk_reaches(self, out@, c);
            }
        }
        out
    }
}

/// Some element of `v` from position `m` on equals `c`.
pub open spec fn in_from(v: Seq<usize>, m: int, c: int) -> bool {
    exists|w: int| m <= w < v.len() && #[trigger] v[w] as int == c
}

proof fn lemma_in_from_step(v: Seq<usize>, m: int)
    requires
        0 <= m < v.len(),
    ensures
        forall|c: int| #[trigger] in_from(v, m, c) <==> (in_from(v, m + 1, c) || v[m] as int == c),
{
    assert forall|c: int| #[trigger] in_from(v, m, c) <==> (in_from(v, m + 1, c) || v[m] as int == c) by {
        if in_from(v, m, c) {
            let w = choose|w: int| m <= w < v.len() && #[trigger] v[w] as int == c;
            if w > m {
                assert(in_from(v, m + 1, c));
            }
        }
        if in_from(v, m + 1, c) {
            let w = choose|w: int| m + 1 <= w < v.len() && #[trigger] v[w] as int == c;
            assert(in_from(v, m, c));
        }
        if v[m] as int == c {
            assert(in_from(v, m, c));
        }
    }
}

/// Some entry of `s` is about block `c`.
pub open spec fn has_node(s: Seq<(usize, usize)>, c: int) -> bool {
    exists|k: int| 0 <= k < s.len() && (#[trigger] s[k]).0 as int == c
}

/// No block has two entries in `s`.
pub open spec fn nodes_distinct(s: Seq<(usize, usize)>) -> bool {
    forall|j: int, k: int| 0 <= j < k < s.len() ==> (#[trigger] s[j]).0 != (#[trigger] s[k]).0
}

/// The entry `e` has the right level given the first `before` entries of `s`:
/// 0 for a root, one more than an entry of its parent among them otherwise.
pub open spec fn level_fits(
    parents: Seq<Option<usize>>,
    s: Seq<(usize, usize)>,
    e: (usize, usize),
    before: int,
) -> bool {
    match parents[e.0 as int] {
        None => e.1 == 0,
        Some(p) => exists|j: int| 0 <= j < before && j < s.len() && (#[trigger] s[j]).0 == p && e.1 == s[j].1 + 1,
    }
}

/// Each entry of `s` is a root at level 0, or comes after an entry of its
/// parent and one level below it.
pub open spec fn levels_follow_parents(parents: Seq<Option<usize>>, s: Seq<(usize, usize)>) -> bool {
    forall|k: int| 0 <= k < s.len() ==> level_fits(parents, s, #[trigger] s[k], k)
}

/// Block `c` is a root, or its parent has an entry in `s`.
pub open spec fn parent_reached(parents: Seq<Option<usize>>, s: Seq<(usize, usize)>, c: int) -> bool {
    match parents[c] {
        None => true,
        Some(p) => has_node(s, p as int),
    }
}

proof fn lemma_has_node_push(s: Seq<(usize, usize)>, e: (usize, usize))
    ensures
        forall|c: int| has_node(s.push(e), c) <==> (has_node(s, c) || c == e.0 as int),
{
    assert forall|c: int| has_node(s.push(e), c) <==> (has_node(s, c) || c == e.0 as int) by {
        if has_node(s, c) {
            let k = choose|k: int| 0 <= k < s.len() && (#[trigger] s[k]).0 as int == c;
            assert(s.push(e)[k] == s[k]);
        }
        if c == e.0 as int {
            assert(s.push(e)[s.len() as int] == e);
        }
        if has_node(s.push(e), c) {
            let k = choose|k: int| 0 <= k < s.push(e).len() && (#[trigger] s.push(e)[k]).0 as int == c;
            if k < s.len() {
                assert(s.push(e)[k] == s[k]);
            }
        }
    }
}

/// A level that fits among the first `b0` entries of `s` still fits among
/// the first `before >= b0` entries of any extension `t` of `s`.
proof fn lemma_level_fits_grow(
    parents: Seq<Option<usize>>,
    s: Seq<(usize, usize)>,
    t: Seq<(usize, usize)>,
    e: (usize, usize),
    b0: int,
    before: int,
)
    requires
        s.len() <= t.len(),
        forall|k: int| 0 <= k < s.len() ==> t[k] == s[k],
        b0 <= before,
        level_fits(parents, s, e, b0),
    ensures
        level_fits(parents, t, e, before),
{
    match parents[e.0 as int] {
        None => {},
        Some(p) => {
            let j = choose|j: int|
                0 <= j < b0 && j < s.len() && (#[trigger] s[j]).0 == p && e.1 == s[j].1 + 1;
            assert(t[j] == s[j]);
        },
    }
}

proof fn lemma_distinct_bounded(s: Seq<(usize, usize)>, n: int)
    requires
        0 <= n,
        nodes_distinct(s),
        forall|k: int| 0 <= k < s.len() ==> (#[trigger] s[k]).0 < n,
    ensures
        s.len() <= n,
{
    let ids = s.map_values(|e: (usize, usize)| e.0 as int);
    assert(ids.no_duplicates()) by {
        assert forall|j: int, k: int| 0 <= j < ids.len() && 0 <= k < ids.len() && j != k implies ids[j] != ids[k] by {
            if j < k {
                assert(s[j].0 != s[k].0);
            } else {
                assert(s[k].0 != s[j].0);
            }
        }
    }
    ids.unique_seq_to_set();
    lemma_int_range(0, n);
    assert(ids.to_set().subset_of(set_int_range(0, n))) by {
        assert forall|x: int| ids.to_set().contains(x) implies set_int_range(0, n).contains(x) by {
            let k = choose|k: int| 0 <= k < ids.len() && ids[k] == x;
            assert(s[k].0 < n);
        }
    }
    lemma_len_subset(ids.to_set(), set_int_range(0, n));
}

/// A strict container has a shorter prefix.
proof fn lemma_container_shorter_prefix(a: Cidr, b: Cidr)
    requires
        a.valid(),
        b.valid(),
        a.strictly_contains(&b),
    ensures
        a.prefix_len < b.prefix_len,
{
    lemma_container_larger(a, b);
    if a.prefix_len > b.prefix_len {
        lemma_pow2_strictly_increases((32 - a.prefix_len) as nat, (32 - b.prefix_len) as nat);
    }
}

/// Once the stack is empty, every block has an entry: by induction up the
/// chain of parents, whose prefixes get shorter.
proof fn lemma_walk_reaches(t: &CidrTree, out: Seq<(usize, usize)>, c: int)
    requires
        t.wf(),
        0 <= c < t.nodes().len(),
        forall|d: int|
            0 <= d < t.nodes().len() ==> (has_node(out, d) <==> parent_reached(t.parent_of(), out, d)),
    ensures
        has_node(out, c),
    decreases t.nodes()[c].prefix_len,
{
    assert(parent_correct(t.nodes(), t.parent_of()[c], c));
    match t.parent_of()[c] {
        None => {},
        Some(p) => {
            lemma_container_shorter_prefix(t.nodes()[p as int], t.nodes()[c]);
            lemma_walk_reaches(t, out, p as int);
        },
    }
}

/// Entries of `s` with the same parent come in increasing index order.
pub open spec fn siblings_ordered(parents: Seq<Option<usize>>, s: Seq<(usize, usize)>) -> bool {
    forall|j: int, k: int|
        0 <= j < k < s.len() && parents[(#[trigger] s[j]).0 as int] == parents[(
        #[trigger] s[k]).0 as int] ==> s[j].0 < s[k].0
}

/// No entry outside the subtree of entry `j` stands between it and entry `m`
/// of that subtree.
pub open spec fn walk_between(cs: Seq<Cidr>, s: Seq<(usize, usize)>, j: int, k: int, m: int) -> bool {
    cs[s[j].0 as int].strictly_contains(&cs[s[m].0 as int]) ==> cs[s[j].0 as int].strictly_contains(
        &cs[s[k].0 as int],
    )
}

/// Each block of `s` is followed at once by the blocks it contains.
pub open spec fn subtrees_contiguous(cs: Seq<Cidr>, s: Seq<(usize, usize)>) -> bool {
    forall|j: int, k: int, m: int| 0 <= j < k < m < s.len() ==> #[trigger] walk_between(cs, s, j, k, m)
}

/// `p` is no parent, or is block `l` or contains it.
pub open spec fn parent_at_or_above(cs: Seq<Cidr>, p: Option<usize>, l: int) -> bool {
    match p {
        None => true,
        Some(q) => q as int == l || cs[q as int].strictly_contains(&cs[l]),
    }
}

/// Stack entry `a` lies below stack entry `b`: its parent is no deeper, and
/// siblings lie in decreasing index order.
pub open spec fn stack_pair_ordered(
    cs: Seq<Cidr>,
    parents: Seq<Option<usize>>,
    a: (usize, usize),
    b: (usize, usize),
) -> bool {
    &&& match (parents[a.0 as int], parents[b.0 as int]) {
        (None, _) => true,
        (Some(_), None) => false,
        (Some(x), Some(y)) => x == y || cs[x as int].strictly_contains(&cs[y as int]),
    }
    &&& parents[a.0 as int] == parents[b.0 as int] ==> a.0 > b.0
}

pub open spec fn stack_ordered(cs: Seq<Cidr>, parents: Seq<Option<usize>>, st: Seq<(usize, usize)>) -> bool {
    forall|a: int, b: int|
        0 <= a < b < st.len() ==> stack_pair_ordered(cs, parents, #[trigger] st[a], #[trigger] st[b])
}

proof fn lemma_strictly_contains_trans(a: Cidr, b: Cidr, c: Cidr)
    requires
        a.strictly_contains(&b),
        b.strictly_contains(&c),
    ensures
        a.strictly_contains(&c),
{
    lemma_container_larger(a, b);
    lemma_container_larger(b, c);
}

/// A block that contains `x` is the parent of `x` or contains that parent.
proof fn lemma_ancestor_of_child(t: &CidrTree, a: int, x: int, p: usize)
    requires
        t.wf(),
        0 <= a < t.nodes().len(),
        0 <= x < t.nodes().len(),
        t.parent_of()[x] == Some(p),
        t.nodes()[a].strictly_contains(&t.nodes()[x]),
    ensures
        a == p as int || t.nodes()[a].strictly_contains(&t.nodes()[p as int]),
{
    let cs = t.nodes();
    assert(parent_correct(cs, t.parent_of()[x], x));
    if a != p as int {
        assert(pair_nested(cs, a, p as int));
        lemma_pow2_pos((32 - cs[x].prefix_len) as nat);
        assert(is_smallest_container(cs, p as int, x));
        assert(block_size(cs[p as int].prefix_len) <= block_size(cs[a].prefix_len));
        if cs[p as int].strictly_contains(&cs[a]) {
            lemma_container_larger(cs[p as int], cs[a]);
        }
        assert(cs[x].first() < cs[x].end());
    }
}

/// One step of the walk (pop the top of the stack, append it to the output)
/// keeps the order facts.
proof fn lemma_walk_order_step(
    t: &CidrTree,
    out0: Seq<(usize, usize)>,
    stack0: Seq<(usize, usize)>,
    out: Seq<(usize, usize)>,
    stack: Seq<(usize, usize)>,
)
    requires
        t.wf(),
        stack0.len() > 0,
        stack == stack0.drop_last(),
        out == out0.push(stack0.last()),
        nodes_distinct(out),
        forall|k: int| 0 <= k < out.len() ==> (#[trigger] out[k]).0 < t.nodes().len(),
        forall|k: int| 0 <= k < stack0.len() ==> (#[trigger] stack0[k]).0 < t.nodes().len(),
        siblings_ordered(t.parent_of(), out0),
        subtrees_contiguous(t.nodes(), out0),
        out0.len() == 0 ==> forall|k: int|
            0 <= k < stack0.len() ==> t.parent_of()[(#[trigger] stack0[k]).0 as int] == None::<usize>,
        out0.len() > 0 ==> forall|k: int|
            0 <= k < stack0.len() ==> parent_at_or_above(
                t.nodes(),
                t.parent_of()[(#[trigger] stack0[k]).0 as int],
                out0[out0.len() - 1].0 as int,
            ),
        stack_ordered(t.nodes(), t.parent_of(), stack0),
        forall|j: int, k: int|
            0 <= j < out0.len() && 0 <= k < stack0.len() && t.parent_of()[(
            #[trigger] out0[j]).0 as int] == t.parent_of()[(#[trigger] stack0[k]).0 as int]
                ==> out0[j].0 < stack0[k].0,
    ensures
        siblings_ordered(t.parent_of(), out),
        subtrees_contiguous(t.nodes(), out),
        forall|k: int|
            0 <= k < stack.len() ==> parent_at_or_above(
                t.nodes(),
                t.parent_of()[(#[trigger] stack[k]).0 as int],
                out[out.len() - 1].0 as int,
            ),
        stack_ordered(t.nodes(), t.parent_of(), stack),
        forall|j: int, k: int|
            0 <= j < out.len() && 0 <= k < stack.len() && t.parent_of()[(
            #[trigger] out[j]).0 as int] == t.parent_of()[(#[trigger] stack[k]).0 as int]
                ==> out[j].0 < stack[k].0,
{
    let cs = t.nodes();
    let ps = t.parent_of();
    let top = stack0.len() - 1;
    let x = stack0[top];
    let n0 = out0.len() as int;
    assert(out[n0] == x);
    assert(parent_correct(cs, ps[x.0 as int], x.0 as int));
    assert forall|j: int, k: int|
        0 <= j < k < out.len() && ps[(#[trigger] out[j]).0 as int] == ps[(#[trigger] out[k]).0 as int]
            implies out[j].0 < out[k].0 by {
        if k < n0 {
            assert(out[j] == out0[j] && out[k] == out0[k]);
        } else {
            assert(out[j] == out0[j]);
            assert(out0[j].0 < stack0[top].0);
        }
    }
    assert forall|j: int, k: int, m: int| 0 <= j < k < m < out.len() implies #[trigger] walk_between(
        cs,
        out,
        j,
        k,
        m,
    ) by {
        assert(out[j] == out0[j] && out[k] == out0[k]);
        if m < n0 {
            assert(out[m] == out0[m]);
            assert(walk_between(cs, out0, j, k, m));
        } else if cs[out[j].0 as int].strictly_contains(&cs[x.0 as int]) {
            match ps[x.0 as int] {
                None => {
                    assert(has_container(cs, x.0 as int));
                },
                Some(p) => {
                    lemma_ancestor_of_child(t, out[j].0 as int, x.0 as int, p);
                    let lst = out0[n0 - 1].0 as int;
                    assert(parent_at_or_above(cs, ps[stack0[top].0 as int], lst));
                    if out[j].0 as int != p as int && p as int != lst {
                        lemma_strictly_contains_trans(cs[out[j].0 as int], cs[p as int], cs[lst]);
                    }
                    if out[j].0 as int == lst {
                        assert(out[n0 - 1] == out0[n0 - 1]);
                        assert(j == n0 - 1);
                    }
                    assert(cs[out[j].0 as int].strictly_contains(&cs[lst]));
                    if k < n0 - 1 {
                        assert(walk_between(cs, out0, j, k, n0 - 1));
                    }
                },
            }
        }
    }
    assert forall|k: int| 0 <= k < stack.len() implies parent_at_or_above(
        cs,
        ps[(#[trigger] stack[k]).0 as int],
        out[out.len() - 1].0 as int,
    ) by {
        assert(stack[k] == stack0[k]);
        assert(stack_pair_ordered(cs, ps, stack0[k], stack0[top]));
        match (ps[stack0[k].0 as int], ps[x.0 as int]) {
            (Some(q), Some(p)) => {
                if q != p {
                    lemma_strictly_contains_trans(cs[q as int], cs[p as int], cs[x.0 as int]);
                }
            },
            _ => {},
        }
    }
    assert forall|a: int, b: int| 0 <= a < b < stack.len() implies stack_pair_ordered(
        cs,
        ps,
        #[trigger] stack[a],
        #[trigger] stack[b],
    ) by {
        assert(stack[a] == stack0[a] && stack[b] == stack0[b]);
    }
    assert forall|j: int, k: int|
        0 <= j < out.len() && 0 <= k < stack.len() && ps[(#[trigger] out[j]).0 as int] == ps[(
        #[trigger] stack[k]).0 as int] implies out[j].0 < stack[k].0 by {
        assert(stack[k] == stack0[k]);
        if j < n0 {
            assert(out[j] == out0[j]);
        } else {
            assert(stack_pair_ordered(cs, ps, stack0[k], stack0[top]));
        }
    }
}

/// A strict container is a larger block than what it contains.
proof fn lemma_container_larger(a: Cidr, b: Cidr)
    requires
        a.strictly_contains(&b),
    ensures
        block_size(b.prefix_len) < block_size(a.prefix_len),
{
}

/// In a well-formed tree every non-root block lies strictly inside its
/// parent, and any two blocks with the same parent, or two roots, are
/// disjoint.
pub proof fn lemma_tree_nesting(t: &CidrTree)
    requires
        t.wf(),
    ensures
        forall|i: int|
            0 <= i < t.nodes().len() && (#[trigger] t.parent_of()[i]).is_some() ==> t.nodes()[t.parent_of()[i].unwrap() as int].strictly_contains(&t.nodes()[i]),
        forall|i: int, k: int|
            0 <= i < t.nodes().len() && 0 <= k < t.nodes().len() && i != k
                && #[trigger] t.parent_of()[i] == #[trigger] t.parent_of()[k] ==> t.nodes()[i].disjoint(
                &t.nodes()[k],
            ),
{
    let cs = t.nodes();
    assert forall|i: int, k: int|
        0 <= i < cs.len() && 0 <= k < cs.len() && i != k
            && #[trigger] t.parent_of()[i] == #[trigger] t.parent_of()[k] implies cs[i].disjoint(
        &cs[k],
    ) by {
        assert(pair_nested(cs, i, k));
        assert(parent_correct(cs, t.parent_of()[i], i));
        assert(parent_correct(cs, t.parent_of()[k], k));
        if cs[i].strictly_contains(&cs[k]) {
            lemma_sibling_not_nested(cs, t.parent_of()[k], i, k);
        }
        if cs[k].strictly_contains(&cs[i]) {
            lemma_sibling_not_nested(cs, t.parent_of()[i], k, i);
        }
    }
    assert forall|i: int|
        0 <= i < cs.len() && (#[trigger] t.parent_of()[i]).is_some() implies cs[t.parent_of()[i].unwrap() as int].strictly_contains(&cs[i]) by {
        assert(parent_correct(cs, t.parent_of()[i], i));
    }
}

/// Block `outer` strictly contains block `inner`, so the two cannot share the
/// parent entry `p` of both.
proof fn lemma_sibling_not_nested(cs: Seq<Cidr>, p: Option<usize>, outer: int, inner: int)
    requires
        0 <= outer < cs.len(),
        0 <= inner < cs.len(),
        cs[outer].strictly_contains(&cs[inner]),
    ensures
        !(parent_correct(cs, p, inner) && parent_correct(cs, p, outer)),
{
    if parent_correct(cs, p, inner) && parent_correct(cs, p, outer) {
    match p {
        Some(q) => {
            lemma_container_larger(cs[q as int], cs[outer]);
            assert(block_size(cs[q as int].prefix_len) <= block_size(cs[outer].prefix_len));
        },
        None => {
            assert(has_container(cs, inner));
        },
    }
    }
}

} // verus!
