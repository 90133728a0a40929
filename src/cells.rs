//! The cell table: one connectivity row and one cell-type code per element,
//! over the four classes in the order 1D, 2D, 3D, SPH.
use vstd::prelude::*;
use crate::model::AnimModel;
use crate::topology::{
    distinct_count, distinct_in_order, first_occurrences, strictly_ascending,
    unique_count_4, unique_sorted_4_of_8,
};

verus! {

/// Cell-type codes of the output format.
pub const VTK_VERTEX: i32 = 1;
pub const VTK_LINE: i32 = 3;
pub const VTK_TRIANGLE: i32 = 5;
pub const VTK_QUAD: i32 = 9;
pub const VTK_TETRA: i32 = 10;
pub const VTK_HEXAHEDRON: i32 = 12;

/// Rows of node ids, each led by its node count, and the type of each cell.
pub struct CellTable {
    pub rows: Vec<Vec<i32>>,
    pub types: Vec<i32>,
}

/// The four ids of 2D element `i`.
pub open spec fn quad_of(c: Seq<i32>, i: int) -> Seq<i32> {
    c.subrange(4 * i, 4 * i + 4)
}

/// The eight ids of 3D element `i`.
pub open spec fn hex_of(c: Seq<i32>, i: int) -> Seq<i32> {
    c.subrange(8 * i, 8 * i + 8)
}

pub open spec fn is_triangle(q: Seq<i32>) -> bool {
    distinct_count(q) == 3
}

pub open spec fn is_tetra(h: Seq<i32>) -> bool {
    distinct_count(h) == 4
}

pub open spec fn beam_row(c: Seq<i32>, i: int) -> Seq<i32> {
    seq![2i32, c[2 * i], c[2 * i + 1]]
}

/// A triangle keeps its distinct ids in order of first occurrence.  A 2D
/// element with fewer than three distinct ids is no valid pattern; it is
/// passed through as a quadrilateral with its four stored ids.
pub open spec fn shell_row(q: Seq<i32>) -> Seq<i32> {
    if is_triangle(q) {
        seq![3i32] + first_occurrences(q)
    } else {
        seq![4i32] + q
    }
}

/// A tetrahedron lists its four distinct ids in ascending order; any other
/// 3D element keeps its eight stored ids.
pub open spec fn solid_row_ok(row: Seq<i32>, h: Seq<i32>) -> bool {
    if is_tetra(h) {
        &&& row.len() == 5
        &&& row[0] == 4
        &&& strictly_ascending(row.drop_first())
        &&& forall|x: i32| h.contains(x) <==> row.drop_first().contains(x)
    } else {
        row == seq![8i32] + h
    }
}

pub open spec fn sph_row(c: Seq<i32>, i: int) -> Seq<i32> {
    seq![1i32, c[i]]
}

/// Number of triangles among the first `n` 2D elements.
pub open spec fn triangle_count(c: Seq<i32>, n: nat) -> nat
    decreases n,
{
    if n == 0 {
        0
    } else {
        triangle_count(c, (n - 1) as nat) + if is_triangle(quad_of(c, n - 1)) {
            1nat
        } else {
            0nat
        }
    }
}

/// Number of tetrahedra among the first `n` 3D elements.
pub open spec fn tetra_count(c: Seq<i32>, n: nat) -> nat
    decreases n,
{
    if n == 0 {
        0
    } else {
        tetra_count(c, (n - 1) as nat) + if is_tetra(hex_of(c, n - 1)) {
            1nat
        } else {
            0nat
        }
    }
}

/// Number of integers in a list of rows.
pub open spec fn cell_ints(rows: Seq<Vec<i32>>) -> int
    decreases rows.len(),
{
    if rows.len() == 0 {
        0
    } else {
        cell_ints(rows.drop_last()) + rows.last()@.len()
    }
}

/// Each row is led by the number of ids that follow it.
pub open spec fn rows_counted(rows: Seq<Vec<i32>>) -> bool {
    forall|i: int|
        0 <= i < rows.len() ==> #[trigger] rows[i]@.len() >= 1 && rows[i]@[0] == rows[i]@.len() - 1
}

/// The sum over rows of the node count that leads each row, plus one.
pub open spec fn declared_ints(rows: Seq<Vec<i32>>) -> int
    decreases rows.len(),
{
    if rows.len() == 0 {
        0
    } else {
        declared_ints(rows.drop_last()) + rows.last()@[0] + 1
    }
}

/// In a table whose rows are led by their node counts, the number of
/// integers the rows hold is the sum of each row's node count plus one: the
/// size that the CELLS header declares.
pub proof fn lemma_declared_size(rows: Seq<Vec<i32>>)
    requires
        rows_counted(rows),
    ensures
        cell_ints(rows) == declared_ints(rows),
    decreases rows.len(),
{
    if rows.len() > 0 {
        let p = rows.drop_last();
        assert forall|i: int| 0 <= i < p.len() implies #[trigger] p[i]@.len() >= 1 && p[i]@[0]
            == p[i]@.len() - 1 by {
            assert(p[i] == rows[i]);
        }
        lemma_declared_size(p);
        assert(rows[rows.len() - 1]@.len() >= 1);
    }
}

impl CellTable {
    pub open spec fn wf(&self) -> bool {
        &&& self.rows@.len() == self.types@.len()
        &&& rows_counted(self.rows@)
    }
}

proof fn lemma_push_row(rows: Seq<Vec<i32>>, row: Vec<i32>)
    requires
        rows_counted(rows),
        row@.len() >= 1,
        row@[0] == row@.len() - 1,
    ensures
        rows_counted(rows.push(row)),
        cell_ints(rows.push(row)) == cell_ints(rows) + row@.len(),
{
    assert(rows.push(row).drop_last() =~= rows);
    assert forall|i: int| 0 <= i < rows.push(row).len() implies #[trigger] rows.push(row)[i]@.len()
        >= 1 && rows.push(row)[i]@[0] == rows.push(row)[i]@.len() - 1 by {
        if i < rows.len() {
            assert(rows.push(row)[i] == rows[i]);
        }
    }
}

fn push_beam_cells(t: &mut CellTable, c: &Vec<i32>, n: usize)
    requires
        old(t).wf(),
        c@.len() == 2 * n,
    ensures
        final(t).wf(),
        final(t).rows@.len() == old(t).rows@.len() + n,
        final(t).rows@.subrange(0, old(t).rows@.len() as int) == old(t).rows@,
        final(t).types@.subrange(0, old(t).rows@.len() as int) == old(t).types@,
        forall|j: int|
            old(t).rows@.len() <= j < old(t).rows@.len() + n ==> #[trigger] final(t).rows@[j]@
                == beam_row(c@, j - old(t).rows@.len()) && final(t).types@[j] == VTK_LINE,
        cell_ints(final(t).rows@) == cell_ints(old(t).rows@) + 3 * n,
{
    let ghost base = t.rows@.len();
    let clen = c.len();
    let mut i: usize = 0;
    while i < n
        invariant
            t.wf(),
            c@.len() == 2 * n,
            i <= n,
            base == old(t).rows@.len(),
            base == old(t).types@.len(),
            t.rows@.len() == base + i,
            clen == c@.len(),
            t.rows@.subrange(0, base as int) == old(t).rows@,
            t.types@.subrange(0, base as int) == old(t).types@,
            forall|j: int|
                base <= j < base + i ==> #[trigger] t.rows@[j]@ == beam_row(c@, j - base)
                    && t.types@[j] == VTK_LINE,
            cell_ints(t.rows@) == cell_ints(old(t).rows@) + 3 * i,
        decreases n - i,
    {
        assert(2 * i + 2 <= 2 * n) by (nonlinear_arith)
            requires
                i < n,
        ;
        let mut row: Vec<i32> = Vec::new();
        row.push(2);
        row.push(c[2 * i]);
        row.push(c[2 * i + 1]);
        assert(row@ =~= beam_row(c@, i as int));
        proof {
            lemma_push_row(t.rows@, row);
        }
        let ghost rows0 = t.rows@;
        let ghost types0 = t.types@;
        t.rows.push(row);
        t.types.push(VTK_LINE);
        proof {
            assert(t.rows@.subrange(0, base as int) =~= rows0.subrange(0, base as int));
            assert(t.types@.subrange(0, base as int) =~= types0.subrange(0, base as int));
            assert forall|j: int| base <= j < base + i + 1 implies #[trigger] t.rows@[j]@ == beam_row(c@, j - base)
                && t.types@[j] == VTK_LINE by {
                if j < base + i {
                    assert(t.rows@[j] == rows0[j]);
                    assert(t.types@[j] == types0[j]);
                }
            }
        }
        i += 1;
    }
}

fn push_shell_cells(t: &mut CellTable, c: &Vec<i32>, n: usize)
    requires
        old(t).wf(),
        c@.len() == 4 * n,
    ensures
        final(t).wf(),
        final(t).rows@.len() == old(t).rows@.len() + n,
        final(t).rows@.subrange(0, old(t).rows@.len() as int) == old(t).rows@,
        final(t).types@.subrange(0, old(t).rows@.len() as int) == old(t).types@,
        forall|j: int|
            old(t).rows@.len() <= j < old(t).rows@.len() + n ==> #[trigger] final(t).rows@[j]@
                == shell_row(quad_of(c@, j - old(t).rows@.len())) && final(t).types@[j] == if is_triangle(
                quad_of(c@, j - old(t).rows@.len()),
            ) {
                VTK_TRIANGLE
            } else {
                VTK_QUAD
            },
        cell_ints(final(t).rows@) == cell_ints(old(t).rows@) + 5 * n - triangle_count(c@, n as nat),
{
    let ghost base = t.rows@.len();
    let clen = c.len();
    let mut i: usize = 0;
    while i < n
        invariant
            t.wf(),
            c@.len() == 4 * n,
            i <= n,
            base == old(t).rows@.len(),
            base == old(t).types@.len(),
            t.rows@.len() == base + i,
            clen == c@.len(),
            t.rows@.subrange(0, base as int) == old(t).rows@,
            t.types@.subrange(0, base as int) == old(t).types@,
            forall|j: int|
                base <= j < base + i ==> #[trigger] t.rows@[j]@ == shell_row(quad_of(c@, j - base))
                    && t.types@[j] == if is_triangle(quad_of(c@, j - base)) {
                    VTK_TRIANGLE
                } else {
                    VTK_QUAD
                },
            cell_ints(t.rows@) == cell_ints(old(t).rows@) + 5 * i - triangle_count(c@, i as nat),
        decreases n - i,
    {
        assert(4 * i + 4 <= 4 * n) by (nonlinear_arith)
            requires
                i < n,
        ;
        let q = &c.as_slice()[4 * i..4 * i + 4];
        assert(q@ == quad_of(c@, i as int));
        let mut row: Vec<i32> = Vec::new();
        let ghost types0 = t.types@;
        let code: i32;
        if unique_count_4(q) == 3 {
            let mut ids = distinct_in_order(q);
            row.push(3);
            row.append(&mut ids);
            code = VTK_TRIANGLE;
        } else {
            row.push(4);
            row.extend_from_slice(q);
            code = VTK_QUAD;
        }
        assert(code == if is_triangle(quad_of(c@, i as int)) {
            VTK_TRIANGLE
        } else {
            VTK_QUAD
        });
        t.types.push(code);
        assert(row@ =~= shell_row(quad_of(c@, i as int)));
        proof {
            lemma_push_row(t.rows@, row);
            assert(triangle_count(c@, (i + 1) as nat) == triangle_count(c@, i as nat) + if is_triangle(
                quad_of(c@, i as int),
            ) {
                1nat
            } else {
                0nat
            });
            assert(triangle_count(c@, i as nat) <= i) by {
                lemma_triangle_count_bound(c@, i as nat);
            }
        }
        let ghost rows0 = t.rows@;
        t.rows.push(row);
        proof {
            assert(t.rows@.subrange(0, base as int) =~= rows0.subrange(0, base as int));
            assert(t.types@.subrange(0, base as int) =~= types0.subrange(0, base as int));
            assert forall|j: int| base <= j < base + i + 1 implies #[trigger] t.rows@[j]@ == shell_row(quad_of(c@, j - base))
                && t.types@[j] == (if is_triangle(quad_of(c@, j - base)) {
                    VTK_TRIANGLE
                } else {
                    VTK_QUAD
                }) by {
                if j < base + i {
                    assert(t.rows@[j] == rows0[j]);
                    assert(t.types@[j] == types0[j]);
                }
            }
        }
        i += 1;
    }
}

fn push_solid_cells(t: &mut CellTable, c: &Vec<i32>, n: usize)
    requires
        old(t).wf(),
        c@.len() == 8 * n,
    ensures
        final(t).wf(),
        final(t).rows@.len() == old(t).rows@.len() + n,
        final(t).rows@.subrange(0, old(t).rows@.len() as int) == old(t).rows@,
        final(t).types@.subrange(0, old(t).rows@.len() as int) == old(t).types@,
        forall|j: int|
            old(t).rows@.len() <= j < old(t).rows@.len() + n ==> solid_row_ok(
                #[trigger] final(t).rows@[j]@,
                hex_of(c@, j - old(t).rows@.len()),
            ) && final(t).types@[j] == if is_tetra(hex_of(c@, j - old(t).rows@.len())) {
                VTK_TETRA
            } else {
                VTK_HEXAHEDRON
            },
        cell_ints(final(t).rows@) == cell_ints(old(t).rows@) + 9 * n - 4 * tetra_count(c@, n as nat),
{
    let ghost base = t.rows@.len();
    let clen = c.len();
    let mut i: usize = 0;
    while i < n
        invariant
            t.wf(),
            c@.len() == 8 * n,
            i <= n,
            base == old(t).rows@.len(),
            base == old(t).types@.len(),
            t.rows@.len() == base + i,
            clen == c@.len(),
            t.rows@.subrange(0, base as int) == old(t).rows@,
            t.types@.subrange(0, base as int) == old(t).types@,
            forall|j: int|
                base <= j < base + i ==> solid_row_ok(#[trigger] t.rows@[j]@, hex_of(c@, j - base))
                    && t.types@[j] == if is_tetra(hex_of(c@, j - base)) {
                    VTK_TETRA
                } else {
                    VTK_HEXAHEDRON
                },
            cell_ints(t.rows@) == cell_ints(old(t).rows@) + 9 * i - 4 * tetra_count(c@, i as nat),
        decreases n - i,
    {
        assert(8 * i + 8 <= 8 * n) by (nonlinear_arith)
            requires
                i < n,
        ;
        let h = &c.as_slice()[8 * i..8 * i + 8];
        assert(h@ == hex_of(c@, i as int));
        let mut row: Vec<i32> = Vec::new();
        let code: i32;
        match unique_sorted_4_of_8(h) {
            Some(u) => {
                row.push(4);
                row.push(u[0]);
                row.push(u[1]);
                row.push(u[2]);
                row.push(u[3]);
                assert(row@.drop_first() =~= u@);
                code = VTK_TETRA;
            },
            None => {
                row.push(8);
                row.extend_from_slice(h);
                assert(row@ =~= seq![8i32] + h@);
                code = VTK_HEXAHEDRON;
            },
        }
        assert(solid_row_ok(row@, hex_of(c@, i as int)));
        let ghost types0 = t.types@;
        t.types.push(code);
        proof {
            lemma_push_row(t.rows@, row);
            assert(tetra_count(c@, (i + 1) as nat) == tetra_count(c@, i as nat) + if is_tetra(
                hex_of(c@, i as int),
            ) {
                1nat
            } else {
                0nat
            });
            lemma_tetra_count_bound(c@, i as nat);
        }
        let ghost rows0 = t.rows@;
        t.rows.push(row);
        proof {
            assert(t.rows@.subrange(0, base as int) =~= rows0.subrange(0, base as int));
            assert(t.types@.subrange(0, base as int) =~= types0.subrange(0, base as int));
            assert forall|j: int| base <= j < base + i + 1 implies solid_row_ok(
                #[trigger] t.rows@[j]@,
                hex_of(c@, j - base),
            ) && t.types@[j] == (if is_tetra(hex_of(c@, j - base)) {
                VTK_TETRA
            } else {
                VTK_HEXAHEDRON
            }) by {
                if j < base + i {
                    assert(t.rows@[j] == rows0[j]);
                    assert(t.types@[j] == types0[j]);
                }
            }
        }
        i += 1;
    }
}

fn push_sph_cells(t: &mut CellTable, c: &Vec<i32>, n: usize)
    requires
        old(t).wf(),
        c@.len() == n,
    ensures
        final(t).wf(),
        final(t).rows@.len() == old(t).rows@.len() + n,
        final(t).rows@.subrange(0, old(t).rows@.len() as int) == old(t).rows@,
        final(t).types@.subrange(0, old(t).rows@.len() as int) == old(t).types@,
        forall|j: int|
            old(t).rows@.len() <= j < old(t).rows@.len() + n ==> #[trigger] final(t).rows@[j]@
                == sph_row(c@, j - old(t).rows@.len()) && final(t).types@[j] == VTK_VERTEX,
        cell_ints(final(t).rows@) == cell_ints(old(t).rows@) + 2 * n,
{
    let ghost base = t.rows@.len();
    let mut i: usize = 0;
    while i < n
        invariant
            t.wf(),
            c@.len() == n,
            i <= n,
            base == old(t).rows@.len(),
            base == old(t).types@.len(),
            t.rows@.len() == base + i,
            t.rows@.subrange(0, base as int) == old(t).rows@,
            t.types@.subrange(0, base as int) == old(t).types@,
            forall|j: int|
                base <= j < base + i ==> #[trigger] t.rows@[j]@ == sph_row(c@, j - base)
                    && t.types@[j] == VTK_VERTEX,
            cell_ints(t.rows@) == cell_ints(old(t).rows@) + 2 * i,
        decreases n - i,
    {
        let mut row: Vec<i32> = Vec::new();
        row.push(1);
        row.push(c[i]);
        assert(row@ =~= sph_row(c@, i as int));
        proof {
            lemma_push_row(t.rows@, row);
        }
        let ghost rows0 = t.rows@;
        let ghost types0 = t.types@;
        t.rows.push(row);
        t.types.push(VTK_VERTEX);
        proof {
            assert(t.rows@.subrange(0, base as int) =~= rows0.subrange(0, base as int));
            assert(t.types@.subrange(0, base as int) =~= types0.subrange(0, base as int));
            assert forall|j: int| base <= j < base + i + 1 implies #[trigger] t.rows@[j]@ == sph_row(c@, j - base)
                && t.types@[j] == VTK_VERTEX by {
                if j < base + i {
                    assert(t.rows@[j] == rows0[j]);
                    assert(t.types@[j] == types0[j]);
                }
            }
        }
        i += 1;
    }
}

/// Whether `rows` and `types` are the cell table of `m`: 1D cells, then 2D,
/// 3D and SPH cells, one row and one type code per element.
pub open spec fn describes_cells(m: &AnimModel, rows: Seq<Vec<i32>>, types: Seq<i32>) -> bool {
    let n1 = m.beams.count as int;
    let n2 = m.shells.count as int;
    let n3 = m.solids.count as int;
    let ns = m.sph.count as int;
    &&& rows.len() == n1 + n2 + n3 + ns
    &&& types.len() == rows.len()
    &&& forall|j: int|
        0 <= j < n1 ==> #[trigger] rows[j]@ == beam_row(m.beams.connect@, j) && types[j] == VTK_LINE
    &&& forall|j: int|
        n1 <= j < n1 + n2 ==> #[trigger] rows[j]@ == shell_row(quad_of(m.shells.connect@, j - n1))
            && types[j] == if is_triangle(quad_of(m.shells.connect@, j - n1)) {
            VTK_TRIANGLE
        } else {
            VTK_QUAD
        }
    &&& forall|j: int|
        n1 + n2 <= j < n1 + n2 + n3 ==> solid_row_ok(
            #[trigger] rows[j]@,
            hex_of(m.solids.connect@, j - n1 - n2),
        ) && types[j] == if is_tetra(hex_of(m.solids.connect@, j - n1 - n2)) {
            VTK_TETRA
        } else {
            VTK_HEXAHEDRON
        }
    &&& forall|j: int|
        n1 + n2 + n3 <= j < n1 + n2 + n3 + ns ==> #[trigger] rows[j]@ == sph_row(
            m.sph.connect@,
            j - n1 - n2 - n3,
        ) && types[j] == VTK_VERTEX
}

/// Builds the cell table of a decoded snapshot.
///
/// Its size law: there is one row per element of the four classes, and the
/// number of integers in the rows (each row's node count plus its ids) is
/// three per 1D element, five per 2D element less one per triangle, nine
/// per 3D element less four per tetrahedron, and two per SPH particle.
pub fn build_cells(m: &AnimModel) -> (t: CellTable)
    requires
        m.wf(),
    ensures
        t.wf(),
        describes_cells(m, t.rows@, t.types@),
        t.rows@.len() == m.cell_count(),
        cell_ints(t.rows@) == 3 * m.beams.count + 5 * m.shells.count - triangle_count(
            m.shells.connect@,
            m.shells.count as nat,
        ) + 9 * m.solids.count - 4 * tetra_count(m.solids.connect@, m.solids.count as nat) + 2
            * m.sph.count,
{
    let mut t = CellTable { rows: Vec::new(), types: Vec::new() };
    assert(cell_ints(t.rows@) == 0);
    push_beam_cells(&mut t, &m.beams.connect, m.beams.count);
    let ghost r1 = t.rows@;
    let ghost y1 = t.types@;
    push_shell_cells(&mut t, &m.shells.connect, m.shells.count);
    let ghost r2 = t.rows@;
    let ghost y2 = t.types@;
    push_solid_cells(&mut t, &m.solids.connect, m.solids.count);
    let ghost r3 = t.rows@;
    let ghost y3 = t.types@;
    push_sph_cells(&mut t, &m.sph.connect, m.sph.count);
    proof {
        let n1 = m.beams.count as int;
        let n2 = m.shells.count as int;
        let n3 = m.solids.count as int;
        assert forall|j: int| 0 <= j < n1 implies #[trigger] t.rows@[j]@ == beam_row(m.beams.connect@, j)
            && t.types@[j] == VTK_LINE by {
            assert(r3[j] == t.rows@.subrange(0, r3.len() as int)[j]);
            assert(r2[j] == r3.subrange(0, r2.len() as int)[j]);
            assert(r1[j] == r2.subrange(0, r1.len() as int)[j]);
            assert(y3[j] == t.types@.subrange(0, r3.len() as int)[j]);
            assert(y2[j] == y3.subrange(0, r2.len() as int)[j]);
            assert(y1[j] == y2.subrange(0, r1.len() as int)[j]);
            assert(r1[j]@ == beam_row(m.beams.connect@, j - 0));
        }
        assert forall|j: int| n1 <= j < n1 + n2 implies #[trigger] t.rows@[j]@ == shell_row(
            quad_of(m.shells.connect@, j - n1),
        ) && t.types@[j] == (if is_triangle(quad_of(m.shells.connect@, j - n1)) {
            VTK_TRIANGLE
        } else {
            VTK_QUAD
        }) by {
            assert(r3[j] == t.rows@.subrange(0, r3.len() as int)[j]);
            assert(r2[j] == r3.subrange(0, r2.len() as int)[j]);
            assert(y3[j] == t.types@.subrange(0, r3.len() as int)[j]);
            assert(y2[j] == y3.subrange(0, r2.len() as int)[j]);
        }
        assert forall|j: int| n1 + n2 <= j < n1 + n2 + n3 implies solid_row_ok(
            #[trigger] t.rows@[j]@,
            hex_of(m.solids.connect@, j - n1 - n2),
        ) && t.types@[j] == (if is_tetra(hex_of(m.solids.connect@, j - n1 - n2)) {
            VTK_TETRA
        } else {
            VTK_HEXAHEDRON
        }) by {
            assert(r3[j] == t.rows@.subrange(0, r3.len() as int)[j]);
            assert(y3[j] == t.types@.subrange(0, r3.len() as int)[j]);
            assert(solid_row_ok(r3[j]@, hex_of(m.solids.connect@, j - r2.len())));
        }
    }
    t
}

proof fn lemma_triangle_count_bound(c: Seq<i32>, n: nat)
    ensures
        triangle_count(c, n) <= n,
    decreases n,
{
    if n > 0 {
        lemma_triangle_count_bound(c, (n - 1) as nat);
    }
}

proof fn lemma_tetra_count_bound(c: Seq<i32>, n: nat)
    ensures
        tetra_count(c, n) <= n,
    decreases n,
{
    if n > 0 {
        lemma_tetra_count_bound(c, (n - 1) as nat);
    }
}

} // verus!
