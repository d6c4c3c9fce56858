//! Boundary adapters: the index topology that renderers and physics
//! engines consume. A polygon becomes a triangle fan for rendering and a
//! closed polyline for collision; building the float vertex buffers from
//! the exact coordinates is the caller's concern.

use vstd::prelude::*;

verus! {

/// The index list of a triangle fan over `n` ring vertices: the triangles
/// `(0, i, i + 1)` for `i` in `1 .. n - 1`, flattened.
pub fn triangle_fan_indices(n: usize) -> (r: Vec<u32>)
    requires
        3 <= n <= 0xffff_ffff,
    ensures
        r@.len() == 3 * (n - 2),
        forall|k: int| 0 <= k < n - 2 ==> #[trigger] r@[3 * k] == 0,
        forall|k: int| 0 <= k < n - 2 ==> #[trigger] r@[3 * k + 1] == k + 1,
        forall|k: int| 0 <= k < n - 2 ==> #[trigger] r@[3 * k + 2] == k + 2,
{
    let mut out: Vec<u32> = Vec::new();
    let mut i: usize = 1;
    while i < n - 1
        invariant
            3 <= n <= 0xffff_ffff,
            1 <= i <= n - 1,
            out@.len() == 3 * (i - 1),
            forall|k: int| 0 <= k < i - 1 ==> #[trigger] out@[3 * k] == 0,
            forall|k: int| 0 <= k < i - 1 ==> #[trigger] out@[3 * k + 1] == k + 1,
            forall|k: int| 0 <= k < i - 1 ==> #[trigger] out@[3 * k + 2] == k + 2,
        decreases n - i,
    {
        let ghost pre = out@;
        out.push(0);
        out.push(i as u32);
        out.push((i + 1) as u32);
        proof {
            assert(out@ =~= pre + seq![0u32, i as u32, (i + 1) as u32]);
            assert forall|k: int| 0 <= k < i implies #[trigger] out@[3 * k] == 0 by {
                if k < i - 1 {
                    assert(0 <= 3 * k && 3 * k + 2 < pre.len()) by (nonlinear_arith)
                        requires
                            0 <= k <= i - 2,
                            pre.len() == 3 * (i - 1),
                    ;
                    assert(pre[3 * k] == 0);
                } else {
                    assert(3 * k == pre.len());
                }
            }
            assert forall|k: int| 0 <= k < i implies #[trigger] out@[3 * k + 1] == k + 1 by {
                if k < i - 1 {
                    assert(0 <= 3 * k && 3 * k + 2 < pre.len()) by (nonlinear_arith)
                        requires
                            0 <= k <= i - 2,
                            pre.len() == 3 * (i - 1),
                    ;
                    assert(pre[3 * k + 1] == k + 1);
                } else {
                    assert(3 * k + 1 == pre.len() + 1);
                }
            }
            assert forall|k: int| 0 <= k < i implies #[trigger] out@[3 * k + 2] == k + 2 by {
                if k < i - 1 {
                    assert(0 <= 3 * k && 3 * k + 2 < pre.len()) by (nonlinear_arith)
                        requires
                            0 <= k <= i - 2,
                            pre.len() == 3 * (i - 1),
                    ;
                    assert(pre[3 * k + 2] == k + 2);
                } else {
                    assert(3 * k + 2 == pre.len() + 2);
                }
            }
        }
        i = i + 1;
    }
    out
}

/// The edge index pairs of a closed polyline over `n` ring vertices: the
/// edges `(i, (i + 1) mod n)`.
pub fn polyline_edge_indices(n: usize) -> (r: Vec<(u32, u32)>)
    requires
        1 <= n <= 0xffff_ffff,
    ensures
        r@.len() == n,
        forall|k: int| 0 <= k < n ==> (#[trigger] r@[k]).0 == k && r@[k].1 == (if k + 1 == n {
            0int
        } else {
            k + 1
        }),
{
    let mut out: Vec<(u32, u32)> = Vec::new();
    let mut i: usize = 0;
    while i < n
        invariant
            1 <= n <= 0xffff_ffff,
            i <= n,
            out@.len() == i,
            forall|k: int| 0 <= k < i ==> (#[trigger] out@[k]).0 == k && out@[k].1 == (if k + 1
                == n {
                0int
            } else {
                k + 1
            }),
        decreases n - i,
    {
        let nx: u32 = if i + 1 == n {
            0
        } else {
            (i + 1) as u32
        };
        out.push((i as u32, nx));
        i = i + 1;
    }
    out
}

} // verus!
