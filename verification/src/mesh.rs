use vstd::prelude::*;

verus! {

/// The two triangles of the grid cell whose corner is vertex `a` and whose
/// corner below is vertex `b`.
pub open spec fn cell_triangles(a: int, b: int) -> Seq<u16> {
    seq![a as u16, b as u16, (a + 1) as u16, b as u16, (b + 1) as u16, (a + 1) as u16]
}

/// The triangles of the first `n` cells of a sphere grid whose rows are
/// `row` vertices apart: cell `k` has corners `k` and `k + row`.
pub open spec fn sphere_index_list(n: nat, row: int) -> Seq<u16>
    decreases n,
{
    if n == 0 {
        Seq::empty()
    } else {
        sphere_index_list((n - 1) as nat, row) + cell_triangles(n - 1, n - 1 + row)
    }
}

/// The triangles of the first `n` segments of a strip whose vertices come in
/// pairs: segment `i` joins pair `i` to pair `i + 1`.
pub open spec fn strip_index_list(n: nat) -> Seq<u16>
    decreases n,
{
    if n == 0 {
        Seq::empty()
    } else {
        let b = 2 * (n - 1);
        strip_index_list((n - 1) as nat) + seq![
            b as u16,
            (b + 1) as u16,
            (b + 2) as u16,
            (b + 1) as u16,
            (b + 3) as u16,
            (b + 2) as u16,
        ]
    }
}

/// The triangle indices of a UV sphere of `stacks` by `slices`: for each of
/// the `(stacks + 1) * (slices + 1)` grid points, in row order, the two
/// triangles of the cell it is the corner of. The indices must fit in `u16`.
pub fn sphere_indices(stacks: u32, slices: u32) -> (r: Vec<u16>)
    requires
        (stacks + 2) * (slices + 1) <= 65535,
    ensures
        r@ == sphere_index_list(((stacks + 1) * (slices + 1)) as nat, slices + 1),
        r@.len() == 6 * ((stacks + 1) * (slices + 1)),
{
    assert(2 * (slices + 1) <= (stacks + 2) * (slices + 1)) by (nonlinear_arith);
    assert(stacks + 2 <= (stacks + 2) * (slices + 1)) by (nonlinear_arith);
    let row: u16 = (slices as u16) + 1;
    let mut indices: Vec<u16> = Vec::new();
    let mut a: u16 = 0;
    let mut i: u32 = 0;
    assert((stacks + 1) * (slices + 1) <= (stacks + 2) * (slices + 1)) by (nonlinear_arith);
    while i <= stacks
        invariant
            (stacks + 2) * (slices + 1) <= 65535,
            (stacks + 1) * (slices + 1) <= (stacks + 2) * (slices + 1),
            row == slices + 1,
            stacks + 2 <= 65535,
            i <= stacks + 1,
            a == i * (slices + 1),
            indices@ == sphere_index_list(a as nat, slices + 1),
        decreases stacks + 1 - i,
    {
        let mut j: u32 = 0;
        assert(i * (slices + 1) + slices + 1 <= (stacks + 1) * (slices + 1)) by (nonlinear_arith)
            requires
                i <= stacks,
        ;
        while j <= slices
            invariant
                (stacks + 2) * (slices + 1) <= 65535,
                i <= stacks,
                row == slices + 1,
                i * (slices + 1) + slices + 1 <= (stacks + 1) * (slices + 1),
                (stacks + 1) * (slices + 1) <= (stacks + 2) * (slices + 1),
                j <= slices + 1,
                a == i * (slices + 1) + j,
                indices@ == sphere_index_list(a as nat, slices + 1),
            decreases slices + 1 - j,
        {
            assert(a + row + 1 <= (stacks + 2) * (slices + 1)) by (nonlinear_arith)
                requires
                    a == i * (slices + 1) + j,
                    j <= slices,
                    i <= stacks,
                    row == slices + 1,
            ;
            let b = a + row;
            indices.push(a);
            indices.push(b);
            indices.push(a + 1);
            indices.push(b);
            indices.push(b + 1);
            indices.push(a + 1);
            assert(indices@ =~= sphere_index_list((a + 1) as nat, slices + 1));
            a = a + 1;
            j = j + 1;
        }
        assert((i + 1) * (slices + 1) == i * (slices + 1) + slices + 1) by (nonlinear_arith);
        i = i + 1;
    }
    proof {
        lemma_sphere_index_list_len(((stacks + 1) * (slices + 1)) as nat, slices + 1);
    }
    indices
}

proof fn lemma_sphere_index_list_len(n: nat, row: int)
    ensures
        sphere_index_list(n, row).len() == 6 * n,
    decreases n,
{
    if n > 0 {
        lemma_sphere_index_list_len((n - 1) as nat, row);
    }
}

proof fn lemma_strip_index_list_len(n: nat)
    ensures
        strip_index_list(n).len() == 6 * n,
    decreases n,
{
    if n > 0 {
        lemma_strip_index_list_len((n - 1) as nat);
    }
}

/// Every index of a strip through `m + 1` points names one of its `2 * (m + 1)`
/// vertices.
pub proof fn law_strip_indices_in_range(m: nat)
    requires
        2 * m + 1 < 65536,
    ensures
        forall|k: int| 0 <= k < strip_index_list(m).len() ==> #[trigger] strip_index_list(m)[k] < 2 * (m + 1),
    decreases m,
{
    if m > 0 {
        law_strip_indices_in_range((m - 1) as nat);
        let prev = strip_index_list((m - 1) as nat);
        lemma_strip_index_list_len((m - 1) as nat);
        assert forall|k: int| 0 <= k < strip_index_list(m).len() implies #[trigger] strip_index_list(m)[k] < 2 * (
        m + 1) by {
            if k < prev.len() {
                assert(strip_index_list(m)[k] == prev[k]);
            }
        }
    }
}

/// Segment `i` of a strip joins points `i` and `i + 1`: its six indices, at
/// `6 * i` onward, are the two triangles `2i, 2i+1, 2i+2` and
/// `2i+1, 2i+3, 2i+2`, each wound the same way.
pub proof fn law_strip_segments(m: nat)
    requires
        2 * m + 1 < 65536,
    ensures
        strip_index_list(m).len() == 6 * m,
        forall|i: int, k: int|
            0 <= i < m && 0 <= k < 6 ==> #[trigger] strip_index_list(m)[6 * i + k] == 2 * i + seq![0int, 1, 2, 1, 3, 2][k],
    decreases m,
{
    lemma_strip_index_list_len(m);
    if m > 0 {
        law_strip_segments((m - 1) as nat);
        let prev = strip_index_list((m - 1) as nat);
        assert forall|i: int, k: int|
            0 <= i < m && 0 <= k < 6 implies #[trigger] strip_index_list(m)[6 * i + k] == 2 * i + seq![0int, 1, 2, 1, 3, 2][k] by {
            if i < m - 1 {
                assert(6 * i + k < 6 * (m - 1)) by (nonlinear_arith)
                    requires
                        i < m - 1,
                        k < 6,
                ;
                assert(strip_index_list(m)[6 * i + k] == prev[6 * i + k]);
            } else {
                assert(6 * i + k - 6 * (m - 1) == k);
            }
        }
    }
}

/// Every index of the first `n` cells of a sphere grid with rows `row` apart
/// is at most `n + row`: the cells of the last row reach one row past the
/// grid.
pub proof fn law_sphere_indices_bound(n: nat, row: nat)
    requires
        n + row < 65536,
    ensures
        forall|k: int| 0 <= k < sphere_index_list(n, row as int).len() ==> #[trigger] sphere_index_list(n, row as int)[k] <= n
            + row,
    decreases n,
{
    if n > 0 {
        law_sphere_indices_bound((n - 1) as nat, row);
        let prev = sphere_index_list((n - 1) as nat, row as int);
        lemma_sphere_index_list_len((n - 1) as nat, row as int);
        assert forall|k: int| 0 <= k < sphere_index_list(n, row as int).len() implies #[trigger] sphere_index_list(
            n,
            row as int,
        )[k] <= n + row by {
            if k < prev.len() {
                assert(sphere_index_list(n, row as int)[k] == prev[k]);
            }
        }
    }
}

/// The triangle indices of a strip through `n` points: two vertices per
/// point, two triangles per segment between consecutive points. There must
/// be at least two points, and the indices must fit in `u16`.
pub fn polyline_indices(n: usize) -> (r: Vec<u16>)
    requires
        2 <= n <= 32768,
    ensures
        r@ == strip_index_list((n - 1) as nat),
        r@.len() == 6 * (n - 1),
        forall|i: int, k: int|
            0 <= i < n - 1 && 0 <= k < 6 ==> #[trigger] r@[6 * i + k] == 2 * i + seq![0int, 1, 2, 1, 3, 2][k],
{
    let mut indices: Vec<u16> = Vec::new();
    let mut i: usize = 0;
    while i < n - 1
        invariant
            2 <= n <= 32768,
            i <= n - 1,
            indices@ == strip_index_list(i as nat),
        decreases n - 1 - i,
    {
        let b = (i * 2) as u16;
        indices.push(b);
        indices.push(b + 1);
        indices.push(b + 2);
        indices.push(b + 1);
        indices.push(b + 3);
        indices.push(b + 2);
        assert(indices@ =~= strip_index_list((i + 1) as nat));
        i = i + 1;
    }
    proof {
        lemma_strip_index_list_len((n - 1) as nat);
        law_strip_segments((n - 1) as nat);
    }
    indices
}

} // verus!
