//! Cached archetype transitions.
//!
//! Adding or removing one component moves an entity to the archetype whose
//! component set differs by exactly that component. The destination is
//! computed once per (source archetype, component) pair and cached; cache
//! misses search the archetype list for the destination set and create a new
//! archetype when none exists. Archetypes are never destroyed and their
//! component sets never change, so cached entries stay valid.

use vstd::prelude::*;

use crate::archetype::{Archetype, Column};
use crate::epoch::EpochId;

verus! {

/// One cached transition.
#[derive(Clone, Copy, PartialEq, Eq, Structural, Debug)]
pub struct Edge {
    /// Source archetype index.
    pub src: u32,
    /// Component key added or removed.
    pub comp: u64,
    /// Destination archetype index.
    pub dst: u32,
    /// True for an addition, false for a removal.
    pub adds: bool,
}

/// The transition cache.
pub struct Edges {
    /// All cached transitions.
    pub edges: Vec<Edge>,
}

/// Every cached transition is true of the archetype list: the destination's
/// component set is the source's with the component added or removed.
pub open spec fn edges_wf(edges: &Edges, archs: Seq<Archetype>) -> bool {
    forall|i: int|
        0 <= i < edges.edges@.len() ==> {
            let e = #[trigger] edges.edges@[i];
            &&& (e.src as int) < archs.len()
            &&& (e.dst as int) < archs.len()
            &&& (e.adds ==> !archs[e.src as int].has_comp(e.comp) && forall|k: u64|
                #[trigger] archs[e.dst as int].has_comp(k) == (archs[e.src as int].has_comp(k)
                    || k == e.comp))
            &&& (!e.adds ==> archs[e.src as int].has_comp(e.comp) && forall|k: u64|
                #[trigger] archs[e.dst as int].has_comp(k) == (archs[e.src as int].has_comp(k)
                    && k != e.comp))
        }
}

/// Compares two key vectors.
fn keys_eq(a: &Vec<u64>, b: &Vec<u64>) -> (r: bool)
    ensures
        r == (a@ == b@),
{
    if a.len() != b.len() {
        proof {
            assert(a@.len() != b@.len());
        }
        return false;
    }
    let n = a.len();
    let mut i: usize = 0;
    while i < n
        invariant
            n == a@.len(),
            n == b@.len(),
            i <= n,
            forall|j: int| 0 <= j < i ==> a@[j] == b@[j],
        decreases n - i,
    {
        if a[i] != b[i] {
            return false;
        }
        i = i + 1;
    }
    proof {
        assert(a@ =~= b@);
    }
    true
}

/// Inserts key `k` into a strictly sorted key vector that does not contain it.
pub fn insert_sorted(keys: &Vec<u64>, k: u64) -> (r: Vec<u64>)
    requires
        forall|i: int, j: int| 0 <= i < j < keys@.len() ==> keys@[i] < keys@[j],
        !keys@.contains(k),
    ensures
        forall|i: int, j: int| 0 <= i < j < r@.len() ==> r@[i] < r@[j],
        forall|x: u64| r@.contains(x) == (keys@.contains(x) || x == k),
        r@.len() == keys@.len() + 1,
{
    let n = keys.len();
    let mut pos: usize = 0;
    while pos < n && keys[pos as usize] < k
        invariant
            n == keys@.len(),
            pos <= n,
            forall|j: int| 0 <= j < pos ==> keys@[j] < k,
        decreases n - pos,
    {
        pos = pos + 1;
    }
    proof {
        assert forall|j: int| pos <= j < n implies keys@[j] > k by {
            assert(keys@[j] >= keys@[pos as int]);
            if keys@[j] == k {
                assert(keys@.contains(k));
            }
        }
    }
    let mut r: Vec<u64> = Vec::new();
    let mut i: usize = 0;
    while i < pos
        invariant
            pos <= n,
            n == keys@.len(),
            i <= pos,
            r@ == keys@.subrange(0, i as int),
        decreases pos - i,
    {
        r.push(keys[i]);
        proof {
            assert(r@ =~= keys@.subrange(0, i + 1));
        }
        i = i + 1;
    }
    r.push(k);
    let mut j: usize = pos;
    while j < n
        invariant
            pos <= n,
            n == keys@.len(),
            pos <= j <= n,
            r@ == keys@.subrange(0, pos as int).push(k) + keys@.subrange(pos as int, j as int),
        decreases n - j,
    {
        r.push(keys[j]);
        proof {
            assert(r@ =~= keys@.subrange(0, pos as int).push(k) + keys@.subrange(
                pos as int,
                j + 1,
            ));
        }
        j = j + 1;
    }
    proof {
        assert(r@ =~= keys@.subrange(0, pos as int).push(k) + keys@.subrange(pos as int, n as int));
        assert forall|x: u64| r@.contains(x) == (keys@.contains(x) || x == k) by {
            if r@.contains(x) {
                let ix = choose|ix: int| 0 <= ix < r@.len() && r@[ix] == x;
                if ix < pos {
                    assert(keys@[ix] == x);
                } else if ix > pos {
                    assert(keys@[ix - 1] == x);
                }
            }
            if keys@.contains(x) {
                let ix = choose|ix: int| 0 <= ix < keys@.len() && keys@[ix] == x;
                if ix < pos {
                    assert(r@[ix] == x);
                } else {
                    assert(r@[ix + 1] == x);
                }
            }
            if x == k {
                assert(r@[pos as int] == x);
            }
        }
        assert forall|i0: int, j0: int| 0 <= i0 < j0 < r@.len() implies r@[i0] < r@[j0] by {
            if i0 < pos {
                assert(r@[i0] == keys@[i0]);
            } else if i0 > pos {
                assert(r@[i0] == keys@[i0 - 1]);
            }
            if j0 < pos {
                assert(r@[j0] == keys@[j0]);
            } else if j0 > pos {
                assert(r@[j0] == keys@[j0 - 1]);
            }
        }
    }
    r
}

/// Removes key `k` from a strictly sorted key vector that contains it.
pub fn remove_key(keys: &Vec<u64>, k: u64) -> (r: Vec<u64>)
    requires
        forall|i: int, j: int| 0 <= i < j < keys@.len() ==> keys@[i] < keys@[j],
        keys@.contains(k),
    ensures
        forall|i: int, j: int| 0 <= i < j < r@.len() ==> r@[i] < r@[j],
        forall|x: u64| r@.contains(x) == (keys@.contains(x) && x != k),
        r@.len() == keys@.len() - 1,
{
    let n = keys.len();
    let mut pos: usize = 0;
    while pos < n && keys[pos as usize] != k
        invariant
            n == keys@.len(),
            pos <= n,
            forall|j: int| 0 <= j < pos ==> keys@[j] != k,
        decreases n - pos,
    {
        pos = pos + 1;
    }
    proof {
        let ki = choose|ki: int| 0 <= ki < keys@.len() && keys@[ki] == k;
        assert(keys@[ki] == k);
        assert(pos < n && keys@[pos as int] == k);
    }
    let mut r: Vec<u64> = Vec::new();
    let mut i: usize = 0;
    while i < pos
        invariant
            pos < n,
            n == keys@.len(),
            i <= pos,
            r@ == keys@.subrange(0, i as int),
        decreases pos - i,
    {
        r.push(keys[i]);
        proof {
            assert(r@ =~= keys@.subrange(0, i + 1));
        }
        i = i + 1;
    }
    let mut j: usize = pos + 1;
    while j < n
        invariant
            pos < n,
            n == keys@.len(),
            pos + 1 <= j <= n,
            r@ == keys@.subrange(0, pos as int) + keys@.subrange(pos + 1, j as int),
        decreases n - j,
    {
        r.push(keys[j]);
        proof {
            assert(r@ =~= keys@.subrange(0, pos as int) + keys@.subrange(pos + 1, j + 1));
        }
        j = j + 1;
    }
    proof {
        assert(r@ =~= keys@.subrange(0, pos as int) + keys@.subrange(pos + 1, n as int));
        assert(keys@[pos as int] == k);
        assert forall|x: u64| r@.contains(x) == (keys@.contains(x) && x != k) by {
            if r@.contains(x) {
                let ix = choose|ix: int| 0 <= ix < r@.len() && r@[ix] == x;
                if ix < pos {
                    assert(keys@[ix] == x);
                } else {
                    assert(keys@[ix + 1] == x);
                }
            }
            if keys@.contains(x) && x != k {
                let ix = choose|ix: int| 0 <= ix < keys@.len() && keys@[ix] == x;
                if ix < pos {
                    assert(r@[ix] == x);
                } else {
                    assert(ix != pos);
                    assert(r@[ix - 1] == x);
                }
            }
        }
        assert forall|i0: int, j0: int| 0 <= i0 < j0 < r@.len() implies r@[i0] < r@[j0] by {
            if i0 < pos {
                assert(r@[i0] == keys@[i0]);
            } else {
                assert(r@[i0] == keys@[i0 + 1]);
            }
            if j0 < pos {
                assert(r@[j0] == keys@[j0]);
            } else {
                assert(r@[j0] == keys@[j0 + 1]);
            }
        }
    }
    r
}

impl Edges {
    /// Returns an empty cache.
    pub fn new() -> (r: Self)
        ensures
            r.edges@.len() == 0,
    {
        Edges { edges: Vec::new() }
    }
}

/// A valid cache stays valid when archetypes are appended to the list.
pub proof fn lemma_edges_wf_extend(edges: &Edges, pre: Seq<Archetype>, post: Seq<Archetype>)
    requires
        edges_wf(edges, pre),
        pre.len() <= post.len(),
        forall|a: int| 0 <= a < pre.len() ==> post[a] == pre[a],
    ensures
        edges_wf(edges, post),
{
    assert forall|i: int| 0 <= i < edges.edges@.len() implies {
        let e = #[trigger] edges.edges@[i];
        &&& (e.src as int) < post.len()
        &&& (e.dst as int) < post.len()
        &&& (e.adds ==> !post[e.src as int].has_comp(e.comp) && forall|k: u64|
            #[trigger] post[e.dst as int].has_comp(k) == (post[e.src as int].has_comp(k) || k
                == e.comp))
        &&& (!e.adds ==> post[e.src as int].has_comp(e.comp) && forall|k: u64|
            #[trigger] post[e.dst as int].has_comp(k) == (post[e.src as int].has_comp(k) && k
                != e.comp))
    } by {
        let e = edges.edges@[i];
        assert(post[e.src as int] == pre[e.src as int]);
        assert(post[e.dst as int] == pre[e.dst as int]);
    }
}

/// Two strictly sorted key sequences with the same members are equal.
pub proof fn lemma_sorted_unique(a: Seq<u64>, b: Seq<u64>)
    requires
        forall|i: int, j: int| 0 <= i < j < a.len() ==> a[i] < a[j],
        forall|i: int, j: int| 0 <= i < j < b.len() ==> b[i] < b[j],
        forall|x: u64| a.contains(x) == b.contains(x),
    ensures
        a == b,
    decreases a.len(),
{
    if a.len() == 0 {
        if b.len() > 0 {
            assert(b.contains(b[0]));
            assert(a.contains(b[0]));
        }
        assert(a =~= b);
    } else {
        assert(a.contains(a[0]));
        assert(b.contains(a[0]));
        assert(b.len() > 0);
        assert(b.contains(b[0]));
        assert(a.contains(b[0]));
        let ia = choose|ia: int| 0 <= ia < a.len() && a[ia] == b[0];
        let ib = choose|ib: int| 0 <= ib < b.len() && b[ib] == a[0];
        assert(a[0] <= a[ia]);
        assert(b[0] <= b[ib]);
        assert(a[0] == b[0]);
        let at = a.subrange(1, a.len() as int);
        let bt = b.subrange(1, b.len() as int);
        assert forall|x: u64| at.contains(x) == bt.contains(x) by {
            if at.contains(x) {
                let i = choose|i: int| 0 <= i < at.len() && at[i] == x;
                assert(a[i + 1] == x);
                assert(a[0] < x);
                assert(a.contains(x));
                assert(b.contains(x));
                let j = choose|j: int| 0 <= j < b.len() && b[j] == x;
                assert(j != 0);
                assert(bt[j - 1] == x);
            }
            if bt.contains(x) {
                let i = choose|i: int| 0 <= i < bt.len() && bt[i] == x;
                assert(b[i + 1] == x);
                assert(b[0] < x);
                assert(b.contains(x));
                assert(a.contains(x));
                let j = choose|j: int| 0 <= j < a.len() && a[j] == x;
                assert(j != 0);
                assert(at[j - 1] == x);
            }
        }
        lemma_sorted_unique(at, bt);
        assert(a.len() == b.len());
        assert forall|i: int| 0 <= i < a.len() implies a[i] == b[i] by {
            if i > 0 {
                assert(a[i] == at[i - 1]);
                assert(b[i] == bt[i - 1]);
            }
        }
        assert(a =~= b);
    }
}

/// Looks up or computes the transition from `src` when component `k` is
/// added, caching the answer.
pub fn edges_insert(
    edges: &mut Edges,
    archetypes: &mut Vec<Archetype>,
    src: u32,
    k: u64,
) -> (dst: u32)
    requires
        edges_wf(old(edges), old(archetypes)@),
        forall|a: int| 0 <= a < old(archetypes)@.len() ==> (#[trigger] old(archetypes)@[a]).wf(),
        (src as int) < old(archetypes)@.len(),
        !old(archetypes)@[src as int].has_comp(k),
        old(archetypes)@.len() < u32::MAX as int,
    ensures
        edges_wf(final(edges), final(archetypes)@),
        forall|a: int| 0 <= a < final(archetypes)@.len() ==> (#[trigger] final(archetypes)@[a]).wf(),
        old(archetypes)@.len() <= final(archetypes)@.len() <= old(archetypes)@.len() + 1,
        forall|a: int| 0 <= a < old(archetypes)@.len() ==> final(archetypes)@[a] == old(
            archetypes,
        )@[a],
        (dst as int) < final(archetypes)@.len(),
        forall|k2: u64|
            #[trigger] final(archetypes)@[dst as int].has_comp(k2) == (old(
                archetypes,
            )@[src as int].has_comp(k2) || k2 == k),
        (dst as int) >= old(archetypes)@.len() ==> {
            &&& final(archetypes)@[dst as int].spec_len() == 0
            &&& final(archetypes)@[dst as int].epochs_le(0)
        },
        final(archetypes)@.len() > old(archetypes)@.len() ==> dst as int == old(
            archetypes,
        )@.len(),
        dst != src,
{
    let n = edges.edges.len();
    let mut i: usize = 0;
    while i < n
        invariant
            n == edges.edges@.len(),
            edges_wf(edges, archetypes@),
            i <= n,
            archetypes@ == old(archetypes)@,
            edges.edges@ == old(edges).edges@,
            forall|a: int| 0 <= a < archetypes@.len() ==> (#[trigger] archetypes@[a]).wf(),
            (src as int) < archetypes@.len(),
            !archetypes@[src as int].has_comp(k),
        decreases n - i,
    {
        let e = edges.edges[i];
        if e.src == src && e.comp == k && e.adds {
            proof {
                assert(edges.edges@[i as int] == e);
                assert(archetypes@[e.dst as int].has_comp(k));
                assert(!archetypes@[src as int].has_comp(k));
            }
            return e.dst;
        }
        i = i + 1;
    }
    let src_keys = archetypes[src as usize].comp_keys();
    proof {
        archetypes@[src as int].lemma_keys_has(src_keys@);
        assert forall|i0: int, j0: int| 0 <= i0 < j0 < src_keys@.len() implies src_keys@[i0]
            < src_keys@[j0] by {
            assert(archetypes@[src as int].columns@[i0].comp < archetypes@[src as int].columns@[
                j0].comp);
        }
    }
    let keys2 = insert_sorted(&src_keys, k);
    let dst = find_or_create_archetype(archetypes, &keys2);
    proof {
        assert(archetypes@[src as int] == old(archetypes)@[src as int]);
        assert forall|k2: u64| #[trigger] archetypes@[dst as int].has_comp(k2) == (old(
            archetypes,
        )@[src as int].has_comp(k2) || k2 == k) by {
            assert(archetypes@[dst as int].has_comp(k2) == keys2@.contains(k2));
        }
        assert(archetypes@[dst as int].has_comp(k));
        assert(dst != src);
    }
    let ghost pre_edges = edges.edges@;
    edges.edges.push(Edge { src, comp: k, dst, adds: true });
    proof {
        assert forall|i0: int| 0 <= i0 < edges.edges@.len() implies {
            let e = #[trigger] edges.edges@[i0];
            &&& (e.src as int) < archetypes@.len()
            &&& (e.dst as int) < archetypes@.len()
            &&& (e.adds ==> !archetypes@[e.src as int].has_comp(e.comp) && forall|k2: u64|
                #[trigger] archetypes@[e.dst as int].has_comp(k2) == (archetypes@[e.src
                    as int].has_comp(k2) || k2 == e.comp))
            &&& (!e.adds ==> archetypes@[e.src as int].has_comp(e.comp) && forall|k2: u64|
                #[trigger] archetypes@[e.dst as int].has_comp(k2) == (archetypes@[e.src
                    as int].has_comp(k2) && k2 != e.comp))
        } by {
            if i0 < pre_edges.len() {
                let e = pre_edges[i0];
                assert(edges.edges@[i0] == e);
                assert(archetypes@[e.src as int] == old(archetypes)@[e.src as int]);
                assert(archetypes@[e.dst as int] == old(archetypes)@[e.dst as int]);
            }
        }
    }
    dst
}

/// Looks up or computes the transition from `src` when component `k` is
/// removed, caching the answer.
pub fn edges_remove(
    edges: &mut Edges,
    archetypes: &mut Vec<Archetype>,
    src: u32,
    k: u64,
) -> (dst: u32)
    requires
        edges_wf(old(edges), old(archetypes)@),
        forall|a: int| 0 <= a < old(archetypes)@.len() ==> (#[trigger] old(archetypes)@[a]).wf(),
        (src as int) < old(archetypes)@.len(),
        old(archetypes)@[src as int].has_comp(k),
        old(archetypes)@.len() < u32::MAX as int,
    ensures
        edges_wf(final(edges), final(archetypes)@),
        forall|a: int| 0 <= a < final(archetypes)@.len() ==> (#[trigger] final(archetypes)@[a]).wf(),
        old(archetypes)@.len() <= final(archetypes)@.len() <= old(archetypes)@.len() + 1,
        forall|a: int| 0 <= a < old(archetypes)@.len() ==> final(archetypes)@[a] == old(
            archetypes,
        )@[a],
        (dst as int) < final(archetypes)@.len(),
        forall|k2: u64|
            #[trigger] final(archetypes)@[dst as int].has_comp(k2) == (old(
                archetypes,
            )@[src as int].has_comp(k2) && k2 != k),
        (dst as int) >= old(archetypes)@.len() ==> {
            &&& final(archetypes)@[dst as int].spec_len() == 0
            &&& final(archetypes)@[dst as int].epochs_le(0)
        },
        final(archetypes)@.len() > old(archetypes)@.len() ==> dst as int == old(
            archetypes,
        )@.len(),
        dst != src,
{
    let n = edges.edges.len();
    let mut i: usize = 0;
    while i < n
        invariant
            n == edges.edges@.len(),
            edges_wf(edges, archetypes@),
            i <= n,
            archetypes@ == old(archetypes)@,
            edges.edges@ == old(edges).edges@,
            forall|a: int| 0 <= a < archetypes@.len() ==> (#[trigger] archetypes@[a]).wf(),
            (src as int) < archetypes@.len(),
            archetypes@[src as int].has_comp(k),
        decreases n - i,
    {
        let e = edges.edges[i];
        if e.src == src && e.comp == k && !e.adds {
            proof {
                assert(edges.edges@[i as int] == e);
                assert(!archetypes@[e.dst as int].has_comp(k));
                assert(archetypes@[src as int].has_comp(k));
            }
            return e.dst;
        }
        i = i + 1;
    }
    let src_keys = archetypes[src as usize].comp_keys();
    proof {
        archetypes@[src as int].lemma_keys_has(src_keys@);
        assert forall|i0: int, j0: int| 0 <= i0 < j0 < src_keys@.len() implies src_keys@[i0]
            < src_keys@[j0] by {
            assert(archetypes@[src as int].columns@[i0].comp < archetypes@[src as int].columns@[
                j0].comp);
        }
    }
    let keys2 = remove_key(&src_keys, k);
    let dst = find_or_create_archetype(archetypes, &keys2);
    proof {
        assert(archetypes@[src as int] == old(archetypes)@[src as int]);
        assert forall|k2: u64| #[trigger] archetypes@[dst as int].has_comp(k2) == (old(
            archetypes,
        )@[src as int].has_comp(k2) && k2 != k) by {
            assert(archetypes@[dst as int].has_comp(k2) == keys2@.contains(k2));
        }
        assert(!archetypes@[dst as int].has_comp(k));
        assert(dst != src);
    }
    let ghost pre_edges = edges.edges@;
    edges.edges.push(Edge { src, comp: k, dst, adds: false });
    proof {
        assert forall|i0: int| 0 <= i0 < edges.edges@.len() implies {
            let e = #[trigger] edges.edges@[i0];
            &&& (e.src as int) < archetypes@.len()
            &&& (e.dst as int) < archetypes@.len()
            &&& (e.adds ==> !archetypes@[e.src as int].has_comp(e.comp) && forall|k2: u64|
                #[trigger] archetypes@[e.dst as int].has_comp(k2) == (archetypes@[e.src
                    as int].has_comp(k2) || k2 == e.comp))
            &&& (!e.adds ==> archetypes@[e.src as int].has_comp(e.comp) && forall|k2: u64|
                #[trigger] archetypes@[e.dst as int].has_comp(k2) == (archetypes@[e.src
                    as int].has_comp(k2) && k2 != e.comp))
        } by {
            if i0 < pre_edges.len() {
                let e = pre_edges[i0];
                assert(edges.edges@[i0] == e);
                assert(archetypes@[e.src as int] == old(archetypes)@[e.src as int]);
                assert(archetypes@[e.dst as int] == old(archetypes)@[e.dst as int]);
            }
        }
    }
    dst
}

/// Finds the archetype whose component set is exactly `keys`, creating it
/// (empty) at the end of the list if none exists.
pub fn find_or_create_archetype(archetypes: &mut Vec<Archetype>, keys: &Vec<u64>) -> (dst: u32)
    requires
        forall|i: int, j: int| 0 <= i < j < keys@.len() ==> keys@[i] < keys@[j],
        forall|a: int| 0 <= a < old(archetypes)@.len() ==> (#[trigger] old(archetypes)@[a]).wf(),
        old(archetypes)@.len() < u32::MAX as int,
    ensures
        forall|a: int| 0 <= a < final(archetypes)@.len() ==> (#[trigger] final(archetypes)@[a]).wf(),
        old(archetypes)@.len() <= final(archetypes)@.len() <= old(archetypes)@.len() + 1,
        forall|a: int| 0 <= a < old(archetypes)@.len() ==> final(archetypes)@[a] == old(
            archetypes,
        )@[a],
        (dst as int) < final(archetypes)@.len(),
        forall|k: u64| final(archetypes)@[dst as int].has_comp(k) == keys@.contains(k),
        final(archetypes)@[dst as int].columns@.len() == keys@.len(),
        forall|i: int|
            0 <= i < keys@.len() ==> (#[trigger] final(archetypes)@[dst as int].columns@[i]).comp
                == keys@[i],
        (dst as int) >= old(archetypes)@.len() ==> {
            &&& final(archetypes)@[dst as int].spec_len() == 0
            &&& final(archetypes)@[dst as int].epochs_le(0)
        },
        final(archetypes)@.len() > old(archetypes)@.len() ==> dst as int == old(
            archetypes,
        )@.len(),
{
    let n = archetypes.len();
    let mut a: usize = 0;
    while a < n
        invariant
            n == archetypes@.len(),
            n < u32::MAX as usize,
            a <= n,
            forall|x: int| 0 <= x < n ==> (#[trigger] archetypes@[x]).wf(),
        decreases n - a,
    {
        let ks = archetypes[a].comp_keys();
        if keys_eq(&ks, keys) {
            proof {
                assert forall|k: u64| archetypes@[a as int].has_comp(k) == keys@.contains(
                    k,
                ) by {
                    if archetypes@[a as int].has_comp(k) {
                        let i = choose|i: int|
                            0 <= i < archetypes@[a as int].columns@.len() && (
                            #[trigger] archetypes@[a as int].columns@[i]).comp == k;
                        assert(keys@[i] == k);
                    }
                    if keys@.contains(k) {
                        let i = choose|i: int| 0 <= i < keys@.len() && keys@[i] == k;
                        assert(archetypes@[a as int].columns@[i].comp == k);
                    }
                }
            }
            proof {
                assert(archetypes@[a as int].columns@.len() == keys@.len());
                assert(forall|i0: int|
                    0 <= i0 < keys@.len() ==> (
                    #[trigger] archetypes@[a as int].columns@[i0]).comp == keys@[i0]);
            }
            return a as u32;
        }
        a = a + 1;
    }
    let nk = keys.len();
    let mut columns: Vec<Column> = Vec::new();
    let mut i: usize = 0;
    while i < nk
        invariant
            nk == keys@.len(),
            i <= nk,
            columns@.len() == i,
            forall|j: int|
                0 <= j < i ==> {
                    &&& (#[trigger] columns@[j]).comp == keys@[j]
                    &&& columns@[j].values@.len() == 0
                    &&& columns@[j].entity_epochs@.len() == 0
                    &&& columns@[j].chunk_epochs@.len() == 0
                    &&& columns@[j].arch_epoch.value == 0
                },
        decreases nk - i,
    {
        columns.push(
            Column {
                comp: keys[i],
                values: Vec::new(),
                entity_epochs: Vec::new(),
                chunk_epochs: Vec::new(),
                arch_epoch: EpochId::start(),
            },
        );
        i = i + 1;
    }
    let arch = Archetype { entities: Vec::new(), columns };
    proof {
        crate::archetype::lemma_n_chunks_push(0);
        assert(arch.wf());
        assert forall|k: u64| arch.has_comp(k) == keys@.contains(k) by {
            if arch.has_comp(k) {
                let i0 = choose|i0: int|
                    0 <= i0 < arch.columns@.len() && (#[trigger] arch.columns@[i0]).comp == k;
                assert(keys@[i0] == k);
            }
            if keys@.contains(k) {
                let i0 = choose|i0: int| 0 <= i0 < keys@.len() && keys@[i0] == k;
                assert(arch.columns@[i0].comp == k);
            }
        }
    }
    let ghost garch = arch;
    let dst = archetypes.len() as u32;
    archetypes.push(arch);
    proof {
        assert(archetypes@[dst as int] == garch);
        assert forall|k: u64| archetypes@[dst as int].has_comp(k) == keys@.contains(k) by {
            assert(garch.has_comp(k) == keys@.contains(k));
        }
    }
    dst
}

} // verus!
