//! The triangles of tessellated primitives.
//!
//! Where the vertices are is geometry; how they are joined is fixed by the
//! kind of primitive and by how finely it is divided.

use vstd::prelude::*;

verus! {

/// The triangles refer to the vertices below `n`.
pub open spec fn refers_below(tris: Seq<[u32; 3]>, n: int) -> bool {
    forall|i: int, c: int| 0 <= i < tris.len() && 0 <= c < 3 ==> (#[trigger] tris[i][c]) < n
}

/// The directed edge from `u` to `v` is a side of triangle `i`.
pub open spec fn goes(tris: Seq<[u32; 3]>, i: int, u: u32, v: u32) -> bool {
    ||| tris[i][0] == u && tris[i][1] == v
    ||| tris[i][1] == u && tris[i][2] == v
    ||| tris[i][2] == u && tris[i][0] == v
}

/// The surface is closed and consistently oriented: where a triangle goes from
/// one vertex to another, exactly one other comes back, and no other goes the
/// same way.
pub open spec fn is_closed(tris: Seq<[u32; 3]>) -> bool {
    &&& forall|i: int, u: u32, v: u32|
        0 <= i < tris.len() && #[trigger] goes(tris, i, u, v) ==> exists|j: int|
            0 <= j < tris.len() && #[trigger] goes(tris, j, v, u)
    &&& forall|i: int, j: int, u: u32, v: u32|
        0 <= i < tris.len() && 0 <= j < tris.len() && #[trigger] goes(tris, i, u, v) && #[trigger] goes(
            tris,
            j,
            u,
            v,
        ) ==> i == j
}

/// The twelve triangles of a box with corners numbered by the signs of their
/// coordinates.
pub open spec fn box_tris_spec() -> Seq<[u32; 3]> {
    seq![
        [0u32, 1u32, 3u32],
        [0u32, 3u32, 2u32],
        [4u32, 6u32, 7u32],
        [4u32, 7u32, 5u32],
        [0u32, 4u32, 5u32],
        [0u32, 5u32, 1u32],
        [2u32, 3u32, 7u32],
        [2u32, 7u32, 6u32],
        [0u32, 2u32, 6u32],
        [0u32, 6u32, 4u32],
        [1u32, 5u32, 7u32],
        [1u32, 7u32, 3u32],
    ]
}

/// The twelve triangles of a box.
pub fn box_tris() -> (tris: Vec<[u32; 3]>)
    ensures
        tris@ == box_tris_spec(),
{
    let mut t: Vec<[u32; 3]> = Vec::new();
    push_quad(&mut t, 0, 1, 3, 2);
    push_quad(&mut t, 4, 6, 7, 5);
    push_quad(&mut t, 0, 4, 5, 1);
    push_quad(&mut t, 2, 3, 7, 6);
    push_quad(&mut t, 0, 2, 6, 4);
    push_quad(&mut t, 1, 5, 7, 3);
    assert(t@ =~= box_tris_spec());
    t
}

/// The two triangles of a quadrilateral.
pub open spec fn quad(a: u32, b: u32, c: u32, d: u32) -> Seq<[u32; 3]> {
    seq![[a, b, c], [a, c, d]]
}

fn push_quad(t: &mut Vec<[u32; 3]>, a: u32, b: u32, c: u32, d: u32)
    ensures
        final(t)@ == old(t)@ + quad(a, b, c, d),
{
    let ghost before = t@;
    t.push([a, b, c]);
    t.push([a, c, d]);
    assert(t@ =~= before + quad(a, b, c, d));
}

/// The twelve triangles of a prism: corners 0 to 3 go round one end, 4 to 7
/// round the other.
pub open spec fn prism_tris_spec() -> Seq<[u32; 3]> {
    seq![
        [0u32, 1u32, 2u32],
        [0u32, 2u32, 3u32],
        [4u32, 6u32, 5u32],
        [4u32, 7u32, 6u32],
        [0u32, 1u32, 5u32],
        [0u32, 5u32, 4u32],
        [1u32, 2u32, 6u32],
        [1u32, 6u32, 5u32],
        [2u32, 3u32, 7u32],
        [2u32, 7u32, 6u32],
        [3u32, 0u32, 4u32],
        [3u32, 4u32, 7u32],
    ]
}

/// The twelve triangles of a prism.
pub fn prism_tris() -> (tris: Vec<[u32; 3]>)
    ensures
        tris@ == prism_tris_spec(),
{
    let mut t: Vec<[u32; 3]> = Vec::new();
    push_quad(&mut t, 0, 1, 2, 3);
    t.push([4, 6, 5]);
    t.push([4, 7, 6]);
    push_quad(&mut t, 0, 1, 5, 4);
    push_quad(&mut t, 1, 2, 6, 5);
    push_quad(&mut t, 2, 3, 7, 6);
    push_quad(&mut t, 3, 0, 4, 7);
    assert(t@ =~= prism_tris_spec());
    t
}

/// Triangle `k` of a grid of `sectors` by any number of stacks whose rows of
/// `sectors + 1` vertices start at `offset`.
pub open spec fn grid_tri(offset: int, sectors: int, k: int) -> [u32; 3] {
    let cell = k / 2;
    let a = offset + (cell / sectors) * (sectors + 1) + cell % sectors;
    let b = a + sectors + 1;
    if k % 2 == 0 {
        [a as u32, b as u32, (a + 1) as u32]
    } else {
        [(a + 1) as u32, b as u32, (b + 1) as u32]
    }
}

/// The triangles of a grid of `sectors` by `stacks` cells.
pub open spec fn grid(offset: int, sectors: int, stacks: int) -> Seq<[u32; 3]> {
    Seq::new((2 * sectors * stacks) as nat, |k: int| grid_tri(offset, sectors, k))
}

proof fn lemma_cell(sectors: int, i: int, j: int)
    requires
        sectors > 0,
        0 <= i,
        0 <= j < sectors,
    ensures
        (i * sectors + j) / sectors == i,
        (i * sectors + j) % sectors == j,
{
    assert((i * sectors + j) / sectors == i && (i * sectors + j) % sectors == j) by (nonlinear_arith)
        requires
            sectors > 0,
            0 <= i,
            0 <= j < sectors,
    ;
}

/// Adds the triangles of a grid of cells whose rows of vertices start at
/// `offset`.
pub fn push_grid(tris: &mut Vec<[u32; 3]>, offset: u32, sectors: u32, stacks: u32)
    requires
        sectors > 0,
        offset + (sectors + 1) * (stacks + 1) <= u32::MAX,
    ensures
        final(tris)@ == old(tris)@ + grid(offset as int, sectors as int, stacks as int),
{
    let ghost start = tris@;
    let ghost (o, s, m) = (offset as int, sectors as int, stacks as int);
    assert((s + 1) * (m + 1) >= s + 1) by (nonlinear_arith)
        requires
            s > 0,
            m >= 0,
    ;
    let row: u32 = sectors + 1;
    let mut i: u32 = 0;
    let mut first: u32 = offset;
    assert(start + grid(o, s, 0) =~= start) by {
        assert(2 * s * 0 == 0);
    }
    while i < stacks
        invariant
            s == sectors,
            m == stacks,
            o == offset,
            s > 0,
            row == s + 1,
            i <= m,
            o + (s + 1) * (m + 1) <= u32::MAX,
            first == o + i * (s + 1),
            tris@ == start + grid(o, s, i as int),
        decreases m - i,
    {
        proof {
            assert((i + 2) * (s + 1) <= (m + 1) * (s + 1)) by (nonlinear_arith)
                requires
                    i < m,
                    s > 0,
            ;
            assert((i + 2) * (s + 1) == i * (s + 1) + 2 * (s + 1)) by (nonlinear_arith);
            assert((m + 1) * (s + 1) == (s + 1) * (m + 1)) by (nonlinear_arith);
        }
        let mut j: u32 = 0;
        assert(start + Seq::new((2 * s * i + 2 * 0) as nat, |k: int| grid_tri(o, s, k)) =~= start + grid(
            o,
            s,
            i as int,
        ));
        while j < sectors
            invariant
                s == sectors,
                o == offset,
                s > 0,
                row == s + 1,
                j <= s,
                first == o + i * (s + 1),
                first + 2 * (s + 1) <= u32::MAX,
                tris@ == start + Seq::new((2 * s * i + 2 * j) as nat, |k: int| grid_tri(o, s, k)),
            decreases s - j,
        {
            let a: u32 = first + j;
            let b: u32 = a + row;
            let ghost before = tris@;
            tris.push([a, b, a + 1]);
            tris.push([a + 1, b, b + 1]);
            proof {
                let n = 2 * s * i + 2 * j;
                assert(n >= 0) by (nonlinear_arith)
                    requires
                        n == 2 * s * i + 2 * j,
                        s > 0,
                        i >= 0,
                        j >= 0,
                ;
                let cell = i * s + j;
                assert(n == 2 * cell) by (nonlinear_arith)
                    requires
                        n == 2 * s * i + 2 * j,
                        cell == i * s + j,
                ;
                lemma_cell(s, i as int, j as int);
                assert(n / 2 == cell && n % 2 == 0 && (n + 1) / 2 == cell && (n + 1) % 2 == 1);
                assert(grid_tri(o, s, n) == [a, b, (a + 1) as u32]);
                assert(grid_tri(o, s, n + 1) == [(a + 1) as u32, b, (b + 1) as u32]);
                let longer = Seq::new((2 * s * i + 2 * (j + 1)) as nat, |k: int| grid_tri(o, s, k));
                let shorter = Seq::new((2 * s * i + 2 * j) as nat, |k: int| grid_tri(o, s, k));
                assert(longer.len() == shorter.len() + 2);
                assert(tris@ =~= start + longer);
            }
            j += 1;
        }
        proof {
            assert(2 * s * i + 2 * s == 2 * s * (i + 1)) by (nonlinear_arith);
            assert(Seq::new((2 * s * i + 2 * j) as nat, |k: int| grid_tri(o, s, k)) =~= grid(o, s, i + 1));
            assert((i + 1) * (s + 1) == i * (s + 1) + (s + 1)) by (nonlinear_arith);
        }
        first = first + row;
        i += 1;
    }
}

/// The triangles of a sphere divided into `sectors` and `stacks`.
pub fn sphere_tris(sectors: u32, stacks: u32) -> (tris: Vec<[u32; 3]>)
    requires
        sectors > 0,
        (sectors + 1) * (stacks + 1) <= u32::MAX,
    ensures
        tris@ == grid(0, sectors as int, stacks as int),
{
    let mut tris: Vec<[u32; 3]> = Vec::new();
    push_grid(&mut tris, 0, sectors, stacks);
    assert(tris@ =~= grid(0, sectors as int, stacks as int));
    tris
}

/// Every triangle of a grid refers to a vertex of its rows.
pub proof fn law_grid_in_range(offset: int, sectors: int, stacks: int)
    requires
        offset >= 0,
        sectors > 0,
        stacks >= 0,
        offset + (sectors + 1) * (stacks + 1) <= u32::MAX,
    ensures
        refers_below(grid(offset, sectors, stacks), offset + (sectors + 1) * (stacks + 1)),
        forall|k: int, c: int|
            0 <= k < grid(offset, sectors, stacks).len() && 0 <= c < 3 ==> offset <= (#[trigger] grid(
                offset,
                sectors,
                stacks,
            )[k][c]),
{
    let g = grid(offset, sectors, stacks);
    assert forall|k: int, c: int| 0 <= k < g.len() && 0 <= c < 3 implies offset <= (#[trigger] g[k][c]) < offset + (
    sectors + 1) * (stacks + 1) by {
        let cell = k / 2;
        let (i, j) = (cell / sectors, cell % sectors);
        assert(0 <= k < 2 * sectors * stacks);
        assert(cell < sectors * stacks) by (nonlinear_arith)
            requires
                cell == k / 2,
                0 <= k < 2 * sectors * stacks,
        ;
        assert(0 <= i < stacks && 0 <= j < sectors) by (nonlinear_arith)
            requires
                sectors > 0,
                0 <= cell < sectors * stacks,
                i == cell / sectors,
                j == cell % sectors,
        ;
        assert(0 <= i * (sectors + 1)) by (nonlinear_arith)
            requires
                i >= 0,
                sectors > 0,
        ;
        assert(i * (sectors + 1) + 2 * (sectors + 1) <= (sectors + 1) * (stacks + 1)) by (nonlinear_arith)
            requires
                0 <= i < stacks,
                sectors > 0,
        ;
    }
}

/// The triangles of a drum, a cylinder or a frustum, divided into `sectors`:
/// vertices `2 j` go round the bottom, `2 j + 1` round the top, then come the
/// centers of bottom and top.
pub open spec fn drum_tri(sectors: int, k: int) -> [u32; 3] {
    let j = if k < 2 * sectors { k / 2 } else { (k - 2 * sectors) / 2 };
    let a = 2 * j;
    let b = 2 * ((j + 1) % sectors);
    if k < 2 * sectors {
        if k % 2 == 0 {
            [a as u32, (a + 1) as u32, (b + 1) as u32]
        } else {
            [a as u32, (b + 1) as u32, b as u32]
        }
    } else if (k - 2 * sectors) % 2 == 0 {
        [(2 * sectors) as u32, b as u32, a as u32]
    } else {
        [(2 * sectors + 1) as u32, (a + 1) as u32, (b + 1) as u32]
    }
}

pub open spec fn drum(sectors: int) -> Seq<[u32; 3]> {
    Seq::new((4 * sectors) as nat, |k: int| drum_tri(sectors, k))
}

/// The triangles of a cylinder or a frustum divided into `sectors`.
pub fn drum_tris(sectors: u32) -> (tris: Vec<[u32; 3]>)
    requires
        0 < sectors,
        2 * sectors + 2 <= u32::MAX,
    ensures
        tris@ == drum(sectors as int),
{
    let ghost s = sectors as int;
    let mut tris: Vec<[u32; 3]> = Vec::new();
    let mut j: u32 = 0;
    while j < sectors
        invariant
            s == sectors,
            0 < s,
            2 * s + 2 <= u32::MAX,
            j <= s,
            tris@ == Seq::new((2 * j) as nat, |k: int| drum_tri(s, k)),
        decreases s - j,
    {
        let a: u32 = 2 * j;
        let b: u32 = 2 * ((j + 1) % sectors);
        let ghost before = tris@;
        tris.push([a, a + 1, b + 1]);
        tris.push([a, b + 1, b]);
        proof {
            assert(drum_tri(s, 2 * j) == [a, (a + 1) as u32, (b + 1) as u32]);
            assert(drum_tri(s, 2 * j + 1) == [a, (b + 1) as u32, b]);
            assert(tris@ =~= Seq::new((2 * (j + 1)) as nat, |k: int| drum_tri(s, k)));
        }
        j += 1;
    }
    let bottom: u32 = 2 * sectors;
    let top: u32 = bottom + 1;
    let mut i: u32 = 0;
    while i < sectors
        invariant
            s == sectors,
            0 < s,
            2 * s + 2 <= u32::MAX,
            bottom == 2 * s,
            top == 2 * s + 1,
            i <= s,
            tris@ == Seq::new((2 * s + 2 * i) as nat, |k: int| drum_tri(s, k)),
        decreases s - i,
    {
        let a: u32 = 2 * i;
        let b: u32 = 2 * ((i + 1) % sectors);
        let ghost before = tris@;
        tris.push([bottom, b, a]);
        tris.push([top, a + 1, b + 1]);
        proof {
            assert(drum_tri(s, 2 * s + 2 * i) == [bottom, b, a]);
            assert(drum_tri(s, 2 * s + 2 * i + 1) == [top, (a + 1) as u32, (b + 1) as u32]);
            assert(tris@ =~= Seq::new((2 * s + 2 * (i + 1)) as nat, |k: int| drum_tri(s, k)));
        }
        i += 1;
    }
    assert(tris@ =~= drum(s));
    tris
}

/// The triangles of the side of a capsule: vertices `2 j` and `2 j + 1` for
/// `j` from 0 to `sectors`, the last pair at the place of the first.
pub open spec fn tube_tri(k: int) -> [u32; 3] {
    let a = 2 * (k / 2);
    if k % 2 == 0 {
        [a as u32, (a + 1) as u32, (a + 3) as u32]
    } else {
        [a as u32, (a + 3) as u32, (a + 2) as u32]
    }
}

/// The triangles of a capsule: the side, then the upper and the lower
/// hemisphere, each a grid of its own vertices.
pub open spec fn capsule(sectors: int, stacks: int) -> Seq<[u32; 3]> {
    let side = 2 * (sectors + 1);
    let cap = (sectors + 1) * (stacks + 1);
    Seq::new((2 * sectors) as nat, |k: int| tube_tri(k)) + grid(side, sectors, stacks) + grid(
        side + cap,
        sectors,
        stacks,
    )
}

/// The triangles of a capsule divided into `sectors` round and `stacks` per
/// hemisphere.
pub fn capsule_tris(sectors: u32, stacks: u32) -> (tris: Vec<[u32; 3]>)
    requires
        0 < sectors,
        2 * (sectors + 1) + 2 * ((sectors + 1) * (stacks + 1)) <= u32::MAX,
    ensures
        tris@ == capsule(sectors as int, stacks as int),
{
    let ghost (s, m) = (sectors as int, stacks as int);
    let mut tris: Vec<[u32; 3]> = Vec::new();
    proof {
        assert((s + 1) * (m + 1) >= s + 1) by (nonlinear_arith)
            requires
                s > 0,
                m >= 0,
        ;
        assert((s + 1) * (m + 1) >= m + 1) by (nonlinear_arith)
            requires
                s > 0,
                m >= 0,
        ;
    }
    let mut j: u32 = 0;
    while j < sectors
        invariant
            s == sectors,
            0 < s,
            2 * (s + 1) <= u32::MAX,
            j <= s,
            tris@ == Seq::new((2 * j) as nat, |k: int| tube_tri(k)),
        decreases s - j,
    {
        let a: u32 = 2 * j;
        let b: u32 = 2 * (j + 1);
        let ghost before = tris@;
        tris.push([a, a + 1, b + 1]);
        tris.push([a, b + 1, b]);
        proof {
            assert(tube_tri(2 * j) == [a, (a + 1) as u32, (b + 1) as u32]);
            assert(tube_tri(2 * j + 1) == [a, (b + 1) as u32, b]);
            assert(tris@ =~= Seq::new((2 * (j + 1)) as nat, |k: int| tube_tri(k)));
        }
        j += 1;
    }
    let side: u32 = 2 * (sectors + 1);
    let cap: u32 = (sectors + 1) * (stacks + 1);
    push_grid(&mut tris, side, sectors, stacks);
    push_grid(&mut tris, side + cap, sectors, stacks);
    assert(tris@ =~= capsule(s, m));
    tris
}


/// Which triangle of a box goes from `u` to `v`, at place `8 u + v`; 12 where
/// none does.
spec fn box_sides() -> Seq<int> {
    seq![
        12int, 0int, 8int, 1int, 4int, 5int, 9int, 12int,
        5int, 12int, 12int, 0int, 12int, 10int, 12int, 11int,
        1int, 12int, 12int, 6int, 12int, 12int, 8int, 7int,
        0int, 11int, 1int, 12int, 12int, 12int, 12int, 6int,
        9int, 12int, 12int, 12int, 12int, 4int, 2int, 3int,
        4int, 5int, 12int, 12int, 3int, 12int, 12int, 10int,
        8int, 12int, 7int, 12int, 9int, 12int, 12int, 2int,
        12int, 10int, 6int, 11int, 2int, 3int, 7int, 12int,
    ]
}

proof fn lemma_box_side(i: int, u: u32, v: u32)
    requires
        0 <= i < 12,
        goes(box_tris_spec(), i, u, v),
    ensures
        u < 8,
        v < 8,
        box_sides()[8 * u + v] == i,
        0 <= box_sides()[8 * v + u] < 12,
        goes(box_tris_spec(), box_sides()[8 * v + u], v, u),
{
    let t = box_tris_spec();
    if i == 0 {
        assert(t[0] == [0u32, 1u32, 3u32]);
    } else if i == 1 {
        assert(t[1] == [0u32, 3u32, 2u32]);
    } else if i == 2 {
        assert(t[2] == [4u32, 6u32, 7u32]);
    } else if i == 3 {
        assert(t[3] == [4u32, 7u32, 5u32]);
    } else if i == 4 {
        assert(t[4] == [0u32, 4u32, 5u32]);
    } else if i == 5 {
        assert(t[5] == [0u32, 5u32, 1u32]);
    } else if i == 6 {
        assert(t[6] == [2u32, 3u32, 7u32]);
    } else if i == 7 {
        assert(t[7] == [2u32, 7u32, 6u32]);
    } else if i == 8 {
        assert(t[8] == [0u32, 2u32, 6u32]);
    } else if i == 9 {
        assert(t[9] == [0u32, 6u32, 4u32]);
    } else if i == 10 {
        assert(t[10] == [1u32, 5u32, 7u32]);
    } else if i == 11 {
        assert(t[11] == [1u32, 7u32, 3u32]);
    }
}

/// The triangles of a box make a closed, consistently oriented surface over
/// its eight corners.
pub proof fn law_box_is_closed()
    ensures
        is_closed(box_tris_spec()),
        refers_below(box_tris_spec(), 8),
{
    let t = box_tris_spec();
    assert forall|i: int, u: u32, v: u32| 0 <= i < t.len() && #[trigger] goes(t, i, u, v) implies exists|j: int|
        0 <= j < t.len() && #[trigger] goes(t, j, v, u) by {
        lemma_box_side(i, u, v);
        assert(goes(t, box_sides()[8 * v + u], v, u));
    }
    assert forall|i: int, j: int, u: u32, v: u32|
        0 <= i < t.len() && 0 <= j < t.len() && #[trigger] goes(t, i, u, v) && #[trigger] goes(
            t,
            j,
            u,
            v,
        ) implies i == j by {
        lemma_box_side(i, u, v);
        lemma_box_side(j, u, v);
    }
    assert forall|i: int, c: int| 0 <= i < t.len() && 0 <= c < 3 implies (#[trigger] t[i][c]) < 8 by {
        assert(goes(t, i, t[i][0], t[i][1]));
        assert(goes(t, i, t[i][1], t[i][2]));
        lemma_box_side(i, t[i][0], t[i][1]);
        lemma_box_side(i, t[i][1], t[i][2]);
    }
}

/// The edge between `u` and `v` is a side of triangle `i`.
pub open spec fn has_side(tris: Seq<[u32; 3]>, i: int, u: u32, v: u32) -> bool {
    goes(tris, i, u, v) || goes(tris, i, v, u)
}

/// Every edge is a side of exactly two triangles.
pub open spec fn is_watertight(tris: Seq<[u32; 3]>) -> bool {
    &&& forall|i: int, u: u32, v: u32|
        0 <= i < tris.len() && #[trigger] has_side(tris, i, u, v) ==> exists|j: int|
            0 <= j < tris.len() && j != i && #[trigger] has_side(tris, j, u, v)
    &&& forall|i: int, j: int, k: int, u: u32, v: u32|
        0 <= i < tris.len() && 0 <= j < tris.len() && 0 <= k < tris.len() && #[trigger] has_side(tris, i, u, v)
            && #[trigger] has_side(tris, j, u, v) && #[trigger] has_side(tris, k, u, v) ==> i == j || i == k || j == k
}

/// A surface is watertight where a pair of triangles is known for every edge,
/// and every triangle on the edge is one of the pair.
proof fn lemma_watertight_by_pairs(t: Seq<[u32; 3]>, pair: spec_fn(u32, u32) -> (int, int))
    requires
        forall|i: int, u: u32, v: u32|
            0 <= i < t.len() && #[trigger] has_side(t, i, u, v) ==> paired(t, pair(u, v), i, u, v),
    ensures
        is_watertight(t),
{
    assert forall|i: int, u: u32, v: u32| 0 <= i < t.len() && #[trigger] has_side(t, i, u, v) implies exists|j: int|
        0 <= j < t.len() && j != i && #[trigger] has_side(t, j, u, v) by {
        assert(paired(t, pair(u, v), i, u, v));
        let (p, q) = pair(u, v);
        assert(has_side(t, p, u, v) && has_side(t, q, u, v));
    }
    assert forall|i: int, j: int, k: int, u: u32, v: u32|
        0 <= i < t.len() && 0 <= j < t.len() && 0 <= k < t.len() && #[trigger] has_side(t, i, u, v)
            && #[trigger] has_side(t, j, u, v) && #[trigger] has_side(t, k, u, v) implies i == j || i == k || j == k by {
        assert(paired(t, pair(u, v), i, u, v));
        assert(paired(t, pair(u, v), j, u, v));
        assert(paired(t, pair(u, v), k, u, v));
    }
}

/// Triangle `i` is one of the two different triangles of the pair, which both
/// have the edge between `u` and `v`.
spec fn paired(t: Seq<[u32; 3]>, pair: (int, int), i: int, u: u32, v: u32) -> bool {
    &&& i == pair.0 || i == pair.1
    &&& pair.0 != pair.1
    &&& 0 <= pair.0 < t.len()
    &&& 0 <= pair.1 < t.len()
    &&& has_side(t, pair.0, u, v)
    &&& has_side(t, pair.1, u, v)
}

/// The two triangles of a prism on the edge between `u` and `v`, at place
/// `8 u + v`; 12 where there are none.
#[verifier::opaque]
spec fn prism_sides() -> (Seq<int>, Seq<int>) {
    (
        seq![
        12int, 0int, 0int, 1int, 5int, 4int, 12int, 12int,
        0int, 12int, 0int, 12int, 12int, 4int, 6int, 12int,
        0int, 0int, 12int, 1int, 12int, 12int, 6int, 8int,
        1int, 12int, 1int, 12int, 10int, 12int, 12int, 8int,
        5int, 12int, 12int, 10int, 12int, 2int, 2int, 3int,
        4int, 4int, 12int, 12int, 2int, 12int, 2int, 12int,
        12int, 6int, 6int, 12int, 2int, 2int, 12int, 3int,
        12int, 12int, 8int, 8int, 3int, 12int, 3int, 12int,
        ],
        seq![
        12int, 4int, 1int, 10int, 10int, 5int, 12int, 12int,
        4int, 12int, 6int, 12int, 12int, 7int, 7int, 12int,
        1int, 6int, 12int, 8int, 12int, 12int, 9int, 9int,
        10int, 12int, 8int, 12int, 11int, 12int, 12int, 11int,
        10int, 12int, 12int, 11int, 12int, 5int, 3int, 11int,
        5int, 7int, 12int, 12int, 5int, 12int, 7int, 12int,
        12int, 7int, 9int, 12int, 3int, 7int, 12int, 9int,
        12int, 12int, 9int, 11int, 11int, 12int, 9int, 12int,
        ],
    )
}

spec fn prism_pair(u: u32, v: u32) -> (int, int) {
    (prism_sides().0[8 * u + v], prism_sides().1[8 * u + v])
}

proof fn lemma_prism_side(i: int, u: u32, v: u32)
    requires
        0 <= i < 12,
        has_side(prism_tris_spec(), i, u, v),
    ensures
        u < 8,
        v < 8,
        paired(prism_tris_spec(), prism_pair(u, v), i, u, v),
{
    reveal(prism_sides);
    let t = prism_tris_spec();
    if i == 0 {
        assert(t[0] == [0u32, 1u32, 2u32]);
    } else if i == 1 {
        assert(t[1] == [0u32, 2u32, 3u32]);
    } else if i == 2 {
        assert(t[2] == [4u32, 6u32, 5u32]);
    } else if i == 3 {
        assert(t[3] == [4u32, 7u32, 6u32]);
    } else if i == 4 {
        assert(t[4] == [0u32, 1u32, 5u32]);
    } else if i == 5 {
        assert(t[5] == [0u32, 5u32, 4u32]);
    } else if i == 6 {
        assert(t[6] == [1u32, 2u32, 6u32]);
    } else if i == 7 {
        assert(t[7] == [1u32, 6u32, 5u32]);
    } else if i == 8 {
        assert(t[8] == [2u32, 3u32, 7u32]);
    } else if i == 9 {
        assert(t[9] == [2u32, 7u32, 6u32]);
    } else if i == 10 {
        assert(t[10] == [3u32, 0u32, 4u32]);
    } else if i == 11 {
        assert(t[11] == [3u32, 4u32, 7u32]);
    }
}

/// The triangles of a prism make a watertight surface over its eight corners.
pub proof fn law_prism_is_watertight()
    ensures
        is_watertight(prism_tris_spec()),
        refers_below(prism_tris_spec(), 8),
{
    let t = prism_tris_spec();
    let pair = |u: u32, v: u32| prism_pair(u, v);
    assert forall|i: int, u: u32, v: u32| 0 <= i < t.len() && #[trigger] has_side(t, i, u, v) implies paired(
        t,
        pair(u, v),
        i,
        u,
        v,
    ) by {
        lemma_prism_side(i, u, v);
    }
    lemma_watertight_by_pairs(t, pair);
    lemma_prism_in_range();
}

proof fn lemma_prism_in_range()
    ensures
        refers_below(prism_tris_spec(), 8),
{
    let t = prism_tris_spec();
    assert forall|i: int, c: int| 0 <= i < t.len() && 0 <= c < 3 implies (#[trigger] t[i][c]) < 8 by {
        lemma_prism_side(i, t[i][0], t[i][1]);
        lemma_prism_side(i, t[i][1], t[i][2]);
    }
}

/// The sector after `j`.
spec fn after(s: int, j: int) -> int {
    if j + 1 < s {
        j + 1
    } else {
        0
    }
}

/// The sector before `j`.
spec fn ahead(s: int, j: int) -> int {
    if j > 0 {
        j - 1
    } else {
        s - 1
    }
}

/// What triangle `k` of a drum is: its part, its sector and its corners.
proof fn lemma_drum_tri(s: int, k: int)
    requires
        3 <= s,
        2 * s + 2 <= u32::MAX,
        0 <= k < 4 * s,
    ensures
        ({
            let j = if k < 2 * s { k / 2 } else { (k - 2 * s) / 2 };
            let n = after(s, j);
            let t = drum(s)[k];
            &&& 0 <= j < s
            &&& k < 2 * s && k % 2 == 0 ==> k == 2 * j && t[0] == 2 * j && t[1] == 2 * j + 1 && t[2] == 2 * n + 1
            &&& k < 2 * s && k % 2 == 1 ==> k == 2 * j + 1 && t[0] == 2 * j && t[1] == 2 * n + 1 && t[2] == 2 * n
            &&& k >= 2 * s && k % 2 == 0 ==> k == 2 * s + 2 * j && t[0] == 2 * s && t[1] == 2 * n && t[2] == 2 * j
            &&& k >= 2 * s && k % 2 == 1 ==> k == 2 * s + 2 * j + 1 && t[0] == 2 * s + 1 && t[1] == 2 * j + 1 && t[2]
                == 2 * n + 1
        }),
{
    let j = if k < 2 * s { k / 2 } else { (k - 2 * s) / 2 };
    assert((j + 1) % s == after(s, j)) by {
        if j + 1 < s {
            assert((j + 1) % s == j + 1) by (nonlinear_arith)
                requires
                    0 <= j + 1 < s,
            ;
        } else {
            assert(j + 1 == s);
            assert(s % s == 0) by (nonlinear_arith)
                requires
                    s > 0,
            ;
        }
    }
}

/// The two triangles of a drum on an edge, by what kind of edge it is: a post,
/// a diagonal, a piece of the upper or lower rim, or a spoke.
spec fn drum_pair(s: int, u: int, v: int) -> (int, int) {
    let (x, y) = if u < v { (u, v) } else { (v, u) };
    if y == 2 * s {
        (2 * s + x, 2 * s + 2 * ahead(s, x / 2))
    } else if y == 2 * s + 1 {
        (2 * s + x, 2 * s + 2 * ahead(s, x / 2) + 1)
    } else if x % 2 == 0 && y == x + 1 {
        (x, 2 * ahead(s, x / 2) + 1)
    } else if x % 2 == 0 && y % 2 == 0 {
        let j = if y == x + 2 { x / 2 } else { y / 2 };
        (2 * j + 1, 2 * s + 2 * j)
    } else if x % 2 == 1 && y % 2 == 1 {
        let j = if y == x + 2 { x / 2 } else { y / 2 };
        (2 * j, 2 * s + 2 * j + 1)
    } else {
        let j = if x % 2 == 0 { x / 2 } else { y / 2 };
        (2 * j, 2 * j + 1)
    }
}

/// `u` and `v` are `x` and `y`, one way or the other.
spec fn is_edge(u: u32, v: u32, x: int, y: int) -> bool {
    (u == x && v == y) || (u == y && v == x)
}

proof fn lemma_drum_post(s: int, j: int, u: u32, v: u32)
    requires
        3 <= s,
        2 * s + 2 <= u32::MAX,
        0 <= j < s,
        is_edge(u, v, 2 * j, 2 * j + 1),
    ensures
        drum_pair(s, u as int, v as int) == (2 * j, 2 * ahead(s, j) + 1),
        has_side(drum(s), 2 * j, u, v),
        has_side(drum(s), 2 * ahead(s, j) + 1, u, v),
{
    lemma_drum_tri(s, 2 * j);
    lemma_drum_tri(s, 2 * ahead(s, j) + 1);
}

proof fn lemma_drum_diagonal(s: int, j: int, u: u32, v: u32)
    requires
        3 <= s,
        2 * s + 2 <= u32::MAX,
        0 <= j < s,
        is_edge(u, v, 2 * j, 2 * after(s, j) + 1),
    ensures
        drum_pair(s, u as int, v as int) == (2 * j, 2 * j + 1),
        has_side(drum(s), 2 * j, u, v),
        has_side(drum(s), 2 * j + 1, u, v),
{
    lemma_drum_tri(s, 2 * j);
    lemma_drum_tri(s, 2 * j + 1);
}

proof fn lemma_drum_upper(s: int, j: int, u: u32, v: u32)
    requires
        3 <= s,
        2 * s + 2 <= u32::MAX,
        0 <= j < s,
        is_edge(u, v, 2 * j + 1, 2 * after(s, j) + 1),
    ensures
        drum_pair(s, u as int, v as int) == (2 * j, 2 * s + 2 * j + 1),
        has_side(drum(s), 2 * j, u, v),
        has_side(drum(s), 2 * s + 2 * j + 1, u, v),
{
    lemma_drum_tri(s, 2 * j);
    lemma_drum_tri(s, 2 * s + 2 * j + 1);
}

proof fn lemma_drum_lower(s: int, j: int, u: u32, v: u32)
    requires
        3 <= s,
        2 * s + 2 <= u32::MAX,
        0 <= j < s,
        is_edge(u, v, 2 * j, 2 * after(s, j)),
    ensures
        drum_pair(s, u as int, v as int) == (2 * j + 1, 2 * s + 2 * j),
        has_side(drum(s), 2 * j + 1, u, v),
        has_side(drum(s), 2 * s + 2 * j, u, v),
{
    lemma_drum_tri(s, 2 * j + 1);
    lemma_drum_tri(s, 2 * s + 2 * j);
}

proof fn lemma_drum_spoke(s: int, j: int, top: bool, u: u32, v: u32)
    requires
        3 <= s,
        2 * s + 2 <= u32::MAX,
        0 <= j < s,
        is_edge(u, v, if top { 2 * j + 1 } else { 2 * j }, if top { 2 * s + 1 } else { 2 * s }),
    ensures
        ({
            let up = if top { 1int } else { 0 };
            &&& drum_pair(s, u as int, v as int) == (2 * s + 2 * j + up, 2 * s + 2 * ahead(s, j) + up)
            &&& has_side(drum(s), 2 * s + 2 * j + up, u, v)
            &&& has_side(drum(s), 2 * s + 2 * ahead(s, j) + up, u, v)
        }),
{
    let up = if top { 1int } else { 0 };
    lemma_drum_tri(s, 2 * s + 2 * j + up);
    lemma_drum_tri(s, 2 * s + 2 * ahead(s, j) + up);
}

proof fn lemma_drum_side(s: int, k: int, u: u32, v: u32)
    requires
        3 <= s,
        2 * s + 2 <= u32::MAX,
        0 <= k < 4 * s,
        has_side(drum(s), k, u, v),
    ensures
        paired(drum(s), drum_pair(s, u as int, v as int), k, u, v),
{
    lemma_drum_tri(s, k);
    let j = if k < 2 * s { k / 2 } else { (k - 2 * s) / 2 };
    let n = after(s, j);
    assert(ahead(s, n) == j && 0 <= n < s && n != j);
    assert(drum(s).len() == 4 * s);
    if k < 2 * s && k % 2 == 0 {
        if is_edge(u, v, 2 * j, 2 * j + 1) {
            lemma_drum_post(s, j, u, v);
        } else if is_edge(u, v, 2 * j + 1, 2 * n + 1) {
            lemma_drum_upper(s, j, u, v);
        } else {
            lemma_drum_diagonal(s, j, u, v);
        }
    } else if k < 2 * s {
        if is_edge(u, v, 2 * j, 2 * n + 1) {
            lemma_drum_diagonal(s, j, u, v);
        } else if is_edge(u, v, 2 * n, 2 * n + 1) {
            lemma_drum_post(s, n, u, v);
        } else {
            lemma_drum_lower(s, j, u, v);
        }
    } else if k % 2 == 0 {
        if is_edge(u, v, 2 * j, 2 * n) {
            lemma_drum_lower(s, j, u, v);
        } else if is_edge(u, v, 2 * j, 2 * s) {
            lemma_drum_spoke(s, j, false, u, v);
        } else {
            lemma_drum_spoke(s, n, false, u, v);
        }
    } else {
        if is_edge(u, v, 2 * j + 1, 2 * n + 1) {
            lemma_drum_upper(s, j, u, v);
        } else if is_edge(u, v, 2 * j + 1, 2 * s + 1) {
            lemma_drum_spoke(s, j, true, u, v);
        } else {
            lemma_drum_spoke(s, n, true, u, v);
        }
    }
}

/// The triangles of a cylinder or a frustum of at least three sectors make a
/// watertight surface over its vertices.
pub proof fn law_drum_is_watertight(s: int)
    requires
        3 <= s,
        2 * s + 2 <= u32::MAX,
    ensures
        is_watertight(drum(s)),
        refers_below(drum(s), 2 * s + 2),
{
    let t = drum(s);
    let pair = |u: u32, v: u32| drum_pair(s, u as int, v as int);
    assert(t.len() == 4 * s);
    assert forall|i: int, u: u32, v: u32| 0 <= i < t.len() && #[trigger] has_side(t, i, u, v) implies paired(
        t,
        pair(u, v),
        i,
        u,
        v,
    ) by {
        lemma_drum_side(s, i, u, v);
    }
    lemma_watertight_by_pairs(t, pair);
    assert forall|i: int, c: int| 0 <= i < t.len() && 0 <= c < 3 implies (#[trigger] t[i][c]) < 2 * s + 2 by {
        lemma_drum_tri(s, i);
    }
}

/// Every triangle of a capsule refers to one of its vertices.
pub proof fn law_capsule_in_range(sectors: int, stacks: int)
    requires
        0 < sectors,
        0 <= stacks,
        2 * (sectors + 1) + 2 * ((sectors + 1) * (stacks + 1)) <= u32::MAX,
    ensures
        refers_below(capsule(sectors, stacks), 2 * (sectors + 1) + 2 * ((sectors + 1) * (stacks + 1))),
{
    let side = 2 * (sectors + 1);
    let cap = (sectors + 1) * (stacks + 1);
    assert(cap >= 0) by (nonlinear_arith)
        requires
            cap == (sectors + 1) * (stacks + 1),
            sectors > 0,
            stacks >= 0,
    ;
    law_grid_in_range(side, sectors, stacks);
    law_grid_in_range(side + cap, sectors, stacks);
    let tube = Seq::new((2 * sectors) as nat, |k: int| tube_tri(k));
    let (g, h) = (grid(side, sectors, stacks), grid(side + cap, sectors, stacks));
    let t = capsule(sectors, stacks);
    assert forall|i: int, c: int| 0 <= i < t.len() && 0 <= c < 3 implies (#[trigger] t[i][c]) < side + 2 * cap by {
        if i < tube.len() {
            assert(t[i] == tube_tri(i));
        } else if i < tube.len() + g.len() {
            assert(t[i] == g[i - tube.len()]);
            assert(g[i - tube.len()][c] < side + cap);
        } else {
            assert(t[i] == h[i - tube.len() - g.len()]);
            assert(h[i - tube.len() - g.len()][c] < side + cap + cap);
        }
    }
}

/// The cells of a grid fit together: the two triangles of a cell go along its
/// diagonal in opposite ways, and so do those of neighbouring cells along the
/// side between them.
pub proof fn law_grid_cells_fit(offset: int, sectors: int, row: int, col: int)
    requires
        0 <= offset,
        0 <= row,
        0 <= col < sectors,
        offset + (row + 3) * (sectors + 1) <= u32::MAX,
    ensures
        ({
            let m = row * sectors + col;
            let a = offset + row * (sectors + 1) + col;
            let b = a + sectors + 1;
            let t = seq![
                grid_tri(offset, sectors, 2 * m),
                grid_tri(offset, sectors, 2 * m + 1),
                grid_tri(offset, sectors, 2 * (m + 1)),
                grid_tri(offset, sectors, 2 * (m + sectors)),
            ];
            &&& goes(t, 0, a as u32, b as u32)
            &&& goes(t, 0, b as u32, (a + 1) as u32) && goes(t, 1, (a + 1) as u32, b as u32)
            &&& col + 1 < sectors ==> goes(t, 1, (b + 1) as u32, (a + 1) as u32) && goes(t, 2, (a + 1) as u32, (b + 1) as u32)
            &&& goes(t, 1, b as u32, (b + 1) as u32) && goes(t, 3, (b + 1) as u32, b as u32)
        }),
{
    let m = row * sectors + col;
    lemma_cell(sectors, row, col);
    assert((row + 1) * sectors == row * sectors + sectors) by (nonlinear_arith);
    assert((row + 1) * (sectors + 1) == row * (sectors + 1) + sectors + 1) by (nonlinear_arith);
    assert((row + 3) * (sectors + 1) == row * (sectors + 1) + 3 * sectors + 3) by (nonlinear_arith);
    assert(row * (sectors + 1) >= 0) by (nonlinear_arith)
        requires
            row >= 0,
            sectors > 0,
    ;
    assert(row * sectors >= 0) by (nonlinear_arith)
        requires
            row >= 0,
            sectors > 0,
    ;
    lemma_cell(sectors, row + 1, col);
    if col + 1 < sectors {
        lemma_cell(sectors, row, col + 1);
    }
    assert((2 * m) / 2 == m && (2 * m + 1) / 2 == m && (2 * (m + 1)) / 2 == m + 1 && (2 * (m + sectors)) / 2 == m + sectors);
}

/// The triangles of a tube fit together: those next to each other go along the
/// side between them in opposite ways.
pub proof fn law_tube_triangles_fit(j: int)
    requires
        0 <= j,
        2 * j + 5 <= u32::MAX,
    ensures
        ({
            let a = 2 * j;
            let t = seq![tube_tri(2 * j), tube_tri(2 * j + 1), tube_tri(2 * j + 2)];
            &&& goes(t, 0, a as u32, (a + 1) as u32)
            &&& goes(t, 0, (a + 3) as u32, a as u32) && goes(t, 1, a as u32, (a + 3) as u32)
            &&& goes(t, 1, (a + 3) as u32, (a + 2) as u32) && goes(t, 2, (a + 2) as u32, (a + 3) as u32)
        }),
{
}

/// The triangles of a drum: two for each part of the side, which go along their
/// diagonal in opposite ways; a bottom that goes backwards round the rim and a
/// top that goes forwards, each to its own centre.
pub proof fn law_drum_triangles(sectors: int, j: int)
    requires
        0 <= j < sectors,
        2 * sectors + 2 <= u32::MAX,
    ensures
        ({
            let d = drum(sectors);
            let a = 2 * j;
            let b = if j + 1 < sectors {
                2 * (j + 1)
            } else {
                0
            };
            &&& d.len() == 4 * sectors
            &&& goes(d, 2 * j, a as u32, (a + 1) as u32)
            &&& goes(d, 2 * j, (b + 1) as u32, a as u32) && goes(d, 2 * j + 1, a as u32, (b + 1) as u32)
            &&& goes(d, 2 * j + 1, (b + 1) as u32, b as u32)
            &&& goes(d, 2 * sectors + 2 * j, b as u32, a as u32)
            &&& goes(d, 2 * sectors + 2 * j, (2 * sectors) as u32, b as u32)
            &&& goes(d, 2 * sectors + 2 * j + 1, (a + 1) as u32, (b + 1) as u32)
            &&& goes(d, 2 * sectors + 2 * j + 1, (2 * sectors + 1) as u32, (a + 1) as u32)
        }),
{
    let d = drum(sectors);
    if j + 1 < sectors {
        vstd::arithmetic::div_mod::lemma_small_mod((j + 1) as nat, sectors as nat);
    } else {
        vstd::arithmetic::div_mod::lemma_mod_self_0(sectors);
    }
    assert(d[2 * j] == drum_tri(sectors, 2 * j));
    assert(d[2 * j + 1] == drum_tri(sectors, 2 * j + 1));
    assert(d[2 * sectors + 2 * j] == drum_tri(sectors, 2 * sectors + 2 * j));
    assert(d[2 * sectors + 2 * j + 1] == drum_tri(sectors, 2 * sectors + 2 * j + 1));
    assert((2 * sectors + 2 * j - 2 * sectors) / 2 == j && (2 * sectors + 2 * j + 1 - 2 * sectors) / 2 == j);
}

/// A capsule is a tube and two caps, each cap on vertices of its own.
pub proof fn law_capsule_parts(sectors: int, stacks: int, k: int, c: int)
    requires
        0 < sectors,
        0 <= stacks,
        2 * (sectors + 1) + 2 * ((sectors + 1) * (stacks + 1)) <= u32::MAX,
        0 <= k < 2 * sectors * stacks,
        0 <= c < 3,
    ensures
        ({
            let t = capsule(sectors, stacks);
            let n = 2 * sectors * stacks;
            let side = 2 * (sectors + 1);
            let cap = (sectors + 1) * (stacks + 1);
            &&& t.len() == 2 * sectors + 2 * n
            &&& t[2 * sectors + k] == grid_tri(side, sectors, k)
            &&& t[2 * sectors + n + k] == grid_tri(side + cap, sectors, k)
            &&& side <= t[2 * sectors + k][c] < side + cap
            &&& side + cap <= t[2 * sectors + n + k][c] < side + 2 * cap
        }),
{
    let side = 2 * (sectors + 1);
    let cap = (sectors + 1) * (stacks + 1);
    assert(cap >= 0) by (nonlinear_arith)
        requires
            cap == (sectors + 1) * (stacks + 1),
            sectors > 0,
            stacks >= 0,
    ;
    law_grid_in_range(side, sectors, stacks);
    law_grid_in_range(side + cap, sectors, stacks);
    let (g, h) = (grid(side, sectors, stacks), grid(side + cap, sectors, stacks));
    let n = 2 * sectors * stacks;
    let tube = Seq::new((2 * sectors) as nat, |i: int| tube_tri(i));
    assert(capsule(sectors, stacks) == tube + g + h);
    assert((tube + g + h)[2 * sectors + k] == g[k]);
    assert((tube + g + h)[2 * sectors + n + k] == h[k]);
    assert(g[k][c] >= side && h[k][c] >= side + cap);
    assert(g[k][c] < side + cap && h[k][c] < side + cap + cap);
}

/// Twice a coordinate of a corner of a box, about its middle: the axes in
/// order, from the highest bit of the corner's number.
pub open spec fn corner_side(i: u32, axis: int) -> int {
    let bit = if axis == 0 {
        i / 4
    } else if axis == 1 {
        (i / 2) % 2
    } else {
        i % 2
    };
    if bit == 0 {
        -1
    } else {
        1
    }
}

/// The product of three signs.
pub open spec fn sign_of(x: int, y: int, z: int) -> int {
    if (x == y) == (z > 0) {
        1
    } else {
        -1
    }
}

/// How far a triangle of box corners faces away from the middle: the
/// determinant of its corners.
pub open spec fn faces_away(t: [u32; 3]) -> int {
    let (ax, ay, az) = (corner_side(t[0], 0), corner_side(t[0], 1), corner_side(t[0], 2));
    let (bx, by, bz) = (corner_side(t[1], 0), corner_side(t[1], 1), corner_side(t[1], 2));
    let (cx, cy, cz) = (corner_side(t[2], 0), corner_side(t[2], 1), corner_side(t[2], 2));
    sign_of(ax, by, cz) - sign_of(ax, bz, cy) - sign_of(ay, bx, cz) + sign_of(ay, bz, cx) + sign_of(az, bx, cy) - sign_of(
        az,
        by,
        cx,
    )
}

/// The triangles of a box face away from its middle.
pub proof fn law_box_faces_outwards(k: int)
    requires
        0 <= k < 12,
    ensures
        faces_away(box_tris_spec()[k]) > 0,
        box_tris_spec().len() == 12,
{
    let t = box_tris_spec()[k];
    assert(t[0] < 8 && t[1] < 8 && t[2] < 8);
}

} // verus!
