//! Bundles: the component sets handed to spawn and insert calls.
//!
//! A bundle is a list of (component id, value) pairs. It is valid when its
//! ids are pairwise distinct; operations that take a bundle demand a valid
//! one. Internally a bundle is brought into ascending id order so it can be
//! laid out against an archetype's sorted columns.

use vstd::prelude::*;

verus! {

/// True if the bundle's component ids are pairwise distinct.
pub open spec fn bundle_ids_distinct(b: Seq<(u32, u64)>) -> bool {
    forall|i: int, j: int| 0 <= i < j < b.len() ==> (#[trigger] b[i]).0 != (#[trigger] b[j]).0
}

/// Checks that the bundle's component ids are pairwise distinct.
pub fn bundle_valid(b: &Vec<(u32, u64)>) -> (r: bool)
    ensures
        r == bundle_ids_distinct(b@),
{
    let n = b.len();
    let mut i: usize = 0;
    while i < n
        invariant
            n == b@.len(),
            i <= n,
            forall|i0: int, j0: int| 0 <= i0 < j0 < n && i0 < i ==> b@[i0].0 != b@[j0].0,
        decreases n - i,
    {
        let mut j: usize = i + 1;
        while j < n
            invariant
                n == b@.len(),
                i < n,
                i + 1 <= j <= n,
                forall|j0: int| i < j0 < j ==> b@[i as int].0 != b@[j0].0,
            decreases n - j,
        {
            if b[i].0 == b[j].0 {
                return false;
            }
            j = j + 1;
        }
        i = i + 1;
    }
    true
}

/// Returns the bundle reordered by strictly ascending component id.
///
/// The result holds exactly the pairs of the input.
pub fn sort_bundle(b: &Vec<(u32, u64)>) -> (r: Vec<(u32, u64)>)
    requires
        bundle_ids_distinct(b@),
    ensures
        r@.len() == b@.len(),
        forall|i: int, j: int| 0 <= i < j < r@.len() ==> (#[trigger] r@[i]).0 < (#[trigger] r@[j]).0,
        forall|i: int| 0 <= i < r@.len() ==> b@.contains(#[trigger] r@[i]),
        forall|j: int| 0 <= j < b@.len() ==> r@.contains(#[trigger] b@[j]),
{
    let n = b.len();
    let mut out: Vec<(u32, u64)> = Vec::new();
    let mut p: usize = 0;
    while p < n
        invariant
            n == b@.len(),
            p <= n,
            bundle_ids_distinct(b@),
            out@.len() == p,
            forall|i: int, j: int|
                0 <= i < j < out@.len() ==> (#[trigger] out@[i]).0 < (#[trigger] out@[j]).0,
            forall|i: int|
                0 <= i < out@.len() ==> exists|j: int|
                    0 <= j < p && b@[j] == #[trigger] out@[i],
            forall|j: int| 0 <= j < p ==> out@.contains(#[trigger] b@[j]),
        decreases n - p,
    {
        let x = b[p];
        proof {
            assert forall|i: int| 0 <= i < out@.len() implies (#[trigger] out@[i]).0 != x.0 by {
                let j = choose|j: int| 0 <= j < p && b@[j] == out@[i];
                assert(b@[j].0 != b@[p as int].0);
            }
        }
        let m = out.len();
        let mut pos: usize = 0;
        while pos < m && out[pos as usize].0 < x.0
            invariant
                m == out@.len(),
                pos <= m,
                forall|j: int| 0 <= j < pos ==> out@[j].0 < x.0,
            decreases m - pos,
        {
            pos = pos + 1;
        }
        let ghost out_pre = out@;
        out.insert(pos, x);
        proof {
            assert forall|j: int| pos <= j < m implies out_pre[j].0 > x.0 by {
                assert(out_pre[j].0 >= out_pre[pos as int].0);
                assert(out_pre[j].0 != x.0);
            }
            assert forall|i: int, j: int|
                0 <= i < j < out@.len() implies (#[trigger] out@[i]).0 < (#[trigger] out@[j]).0 by {
                if i < pos {
                    assert(out@[i] == out_pre[i]);
                } else if i > pos {
                    assert(out@[i] == out_pre[i - 1]);
                }
                if j < pos {
                    assert(out@[j] == out_pre[j]);
                } else if j > pos {
                    assert(out@[j] == out_pre[j - 1]);
                }
            }
            assert forall|i: int| 0 <= i < out@.len() implies exists|j: int|
                0 <= j < p + 1 && b@[j] == #[trigger] out@[i] by {
                if i < pos {
                    assert(out@[i] == out_pre[i]);
                } else if i > pos {
                    assert(out@[i] == out_pre[i - 1]);
                } else {
                    assert(out@[i] == b@[p as int]);
                }
            }
            assert forall|j: int| 0 <= j < p + 1 implies out@.contains(#[trigger] b@[j]) by {
                if j == p {
                    assert(out@[pos as int] == b@[j]);
                } else {
                    let i = choose|i: int| 0 <= i < out_pre.len() && out_pre[i] == b@[j];
                    if i < pos {
                        assert(out@[i] == b@[j]);
                    } else {
                        assert(out@[i + 1] == b@[j]);
                    }
                }
            }
        }
        p = p + 1;
    }
    out
}

} // verus!
