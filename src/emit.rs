//! The integer sections of the output: CELLS, CELL_TYPES, and the id,
//! part and erosion scalars.
use vstd::prelude::*;
use vstd::string::StringSliceAdditionalSpecFns;
use crate::cells::{cell_ints, describes_cells, CellTable};
use crate::model::AnimModel;
use crate::model::ElementClass;
use crate::parts::{name_views, part_cursor, part_id_at, part_ids, part_slot};
use crate::numfmt::dec_digits;
use crate::writer::{
    fields_of, i32_items, last_newline, lemma_fields_of_spaced, lemma_i32_items_len,
    lemma_last_newline_skip, lemma_words_of_append, spaced_i32, words_of, VtkWriter,
};

verus! {

/// How a cell row is written: its values on one line in ASCII mode, as
/// big-endian words in binary mode.
pub open spec fn row_bytes(binary: bool, row: Seq<i32>) -> Seq<u8> {
    if binary {
        i32_items(true, row)
    } else {
        spaced_i32(row).push(10u8)
    }
}

pub open spec fn rows_bytes(binary: bool, rows: Seq<Vec<i32>>) -> Seq<u8>
    decreases rows.len(),
{
    if rows.len() == 0 {
        Seq::empty()
    } else {
        rows_bytes(binary, rows.drop_last()) + row_bytes(binary, rows.last()@)
    }
}

/// The rows of newline-terminated lines of space-separated decimal text.
pub open spec fn row_lines_of(b: Seq<u8>) -> Seq<Seq<int>>
    decreases b.len(),
{
    if b.len() == 0 {
        Seq::empty()
    } else {
        let body = b.drop_last();
        let k = last_newline(body);
        if -1 <= k < body.len() {
            row_lines_of(body.subrange(0, k + 1)).push(fields_of(body.subrange(k + 1, body.len() as int)))
        } else {
            Seq::empty()
        }
    }
}

/// The values of rows, one row after the other.
pub open spec fn flatten_rows(rows: Seq<Vec<i32>>) -> Seq<i32>
    decreases rows.len(),
{
    if rows.len() == 0 {
        Seq::empty()
    } else {
        flatten_rows(rows.drop_last()) + rows.last()@
    }
}

pub open spec fn row_values(rows: Seq<Vec<i32>>) -> Seq<Seq<int>> {
    rows.map_values(|r: Vec<i32>| r@.map_values(|v: i32| v as int))
}

proof fn lemma_rows_bytes_shape(rows: Seq<Vec<i32>>)
    ensures
        rows_bytes(true, rows).len() % 4 == 0,
        rows.len() == 0 ==> rows_bytes(false, rows).len() == 0,
        rows.len() > 0 ==> rows_bytes(false, rows).len() > 0 && rows_bytes(false, rows).last()
            == 10u8,
    decreases rows.len(),
{
    if rows.len() > 0 {
        lemma_rows_bytes_shape(rows.drop_last());
        lemma_i32_items_len(rows.last()@);
    }
}

/// The CELLS rows describe the same cells in both output modes: the ASCII
/// lines read back to the rows, value for value, and the binary words read
/// back to the same values, row after row.
pub proof fn lemma_cell_rows_agree(rows: Seq<Vec<i32>>)
    ensures
        row_lines_of(rows_bytes(false, rows)) == row_values(rows),
        words_of(rows_bytes(true, rows)) == flatten_rows(rows),
    decreases rows.len(),
{
    if rows.len() == 0 {
        assert(row_values(rows) =~= Seq::<Seq<int>>::empty());
        assert(words_of(Seq::<u8>::empty()) =~= Seq::<i32>::empty());
    } else {
        let p = rows.drop_last();
        let r = rows.last()@;
        lemma_cell_rows_agree(p);
        // binary
        lemma_rows_bytes_shape(p);
        lemma_words_of_append(rows_bytes(true, p), r);
        // ASCII
        let ta = rows_bytes(false, p);
        let line = spaced_i32(r);
        lemma_fields_of_spaced(r);
        let a = rows_bytes(false, rows);
        assert(a == ta + line.push(10u8));
        assert(a.drop_last() =~= ta + line);
        lemma_last_newline_skip(ta, line);
        if p.len() > 0 {
            assert(last_newline(ta) == ta.len() - 1);
        } else {
            assert(last_newline(ta) == -1);
        }
        assert((ta + line).subrange(0, ta.len() as int) =~= ta);
        assert((ta + line).subrange(ta.len() as int, (ta + line).len() as int) =~= line);
        assert(row_values(rows) =~= row_values(p).push(r.map_values(|v: i32| v as int)));
    }
}

/// The concatenation of slices of values.
pub open spec fn concat_i32(slices: Seq<&[i32]>) -> Seq<i32>
    decreases slices.len(),
{
    if slices.len() == 0 {
        Seq::empty()
    } else {
        concat_i32(slices.drop_last()) + slices.last()@
    }
}

proof fn lemma_i32_items_append(binary: bool, a: Seq<i32>, b: Seq<i32>)
    ensures
        i32_items(binary, a + b) == i32_items(binary, a) + i32_items(binary, b),
    decreases b.len(),
{
    if b.len() == 0 {
        assert(a + b =~= a);
        assert(i32_items(binary, a) + i32_items(binary, b) =~= i32_items(binary, a));
    } else {
        lemma_i32_items_append(binary, a, b.drop_last());
        assert((a + b).drop_last() =~= a + b.drop_last());
        assert((a + b).last() == b.last());
        assert(i32_items(binary, a + b) =~= i32_items(binary, a) + i32_items(binary, b));
    }
}

/// The number of integers in the rows of a cell table, or `None` when it
/// does not fit in a `usize`.
pub fn cell_int_count(t: &CellTable) -> (r: Option<usize>)
    ensures
        r matches Some(n) ==> n == cell_ints(t.rows@),
        r.is_none() ==> cell_ints(t.rows@) > usize::MAX,
{
    let mut total: usize = 0;
    let mut k: usize = 0;
    while k < t.rows.len()
        invariant
            k <= t.rows@.len(),
            total == cell_ints(t.rows@.subrange(0, k as int)),
        decreases t.rows@.len() - k,
    {
        assert(t.rows@.subrange(0, k + 1).drop_last() =~= t.rows@.subrange(0, k as int));
        let len = t.rows[k].len();
        if total > usize::MAX - len {
            proof {
                lemma_cell_ints_prefix(t.rows@, k + 1);
            }
            return None;
        }
        total = total + len;
        k += 1;
    }
    assert(t.rows@.subrange(0, k as int) =~= t.rows@);
    Some(total)
}

proof fn lemma_cell_ints_prefix(rows: Seq<Vec<i32>>, k: int)
    requires
        0 <= k <= rows.len(),
    ensures
        cell_ints(rows.subrange(0, k)) <= cell_ints(rows),
    decreases rows.len() - k,
{
    if k < rows.len() {
        lemma_cell_ints_prefix(rows, k + 1);
        assert(rows.subrange(0, k + 1).drop_last() =~= rows.subrange(0, k));
    } else {
        assert(rows.subrange(0, k) =~= rows);
    }
}

/// Writes the CELLS section: `CELLS n size`, one row per cell, then the
/// separator line.  An empty table writes the separator alone.
pub fn write_cells(vtk: &mut VtkWriter, t: &CellTable, size: usize)
    requires
        old(vtk).wf(),
        size == cell_ints(t.rows@),
    ensures
        final(vtk).wf(),
        final(vtk).binary_mode() == old(vtk).binary_mode(),
        final(vtk).legacy_mode() == old(vtk).legacy_mode(),
        final(vtk).emitted() == old(vtk).emitted() + if t.rows@.len() > 0 {
            ("CELLS ".spec_bytes() + dec_digits(t.rows@.len()) + " ".spec_bytes() + dec_digits(
                size as nat,
            ) + "".spec_bytes()).push(10u8) + rows_bytes(old(vtk).binary_mode(), t.rows@)
        } else {
            Seq::empty()
        }.push(10u8),
{
    let n = t.rows.len();
    if n > 0 {
        vtk.write_header_two_usize("CELLS ", n, " ", size, "");
        let ghost e1 = vtk.emitted();
        let binary = vtk.is_binary();
        let mut k: usize = 0;
        while k < n
            invariant
                vtk.wf(),
                n == t.rows@.len(),
                k <= n,
                binary == vtk.binary_mode(),
                vtk.binary_mode() == old(vtk).binary_mode(),
                vtk.legacy_mode() == old(vtk).legacy_mode(),
                vtk.emitted() == e1 + rows_bytes(binary, t.rows@.subrange(0, k as int)),
            decreases n - k,
        {
            vtk.write_i32_line(t.rows[k].as_slice());
            proof {
                assert(t.rows@.subrange(0, k + 1).drop_last() =~= t.rows@.subrange(0, k as int));
                assert(t.rows@.subrange(0, k + 1).last() == t.rows@[k as int]);
            }
            k += 1;
            assert(vtk.emitted() =~= e1 + rows_bytes(binary, t.rows@.subrange(0, k as int)));
        }
        vtk.flush_scratch();
        assert(t.rows@.subrange(0, n as int) =~= t.rows@);
    }
    vtk.newline();
}

/// Writes the CELL_TYPES section: `CELL_TYPES n`, one code per cell, then
/// the separator line.  An empty table writes the separator alone.
pub fn write_cell_types(vtk: &mut VtkWriter, t: &CellTable)
    requires
        old(vtk).wf(),
    ensures
        final(vtk).wf(),
        final(vtk).binary_mode() == old(vtk).binary_mode(),
        final(vtk).legacy_mode() == old(vtk).legacy_mode(),
        final(vtk).emitted() == old(vtk).emitted() + if t.types@.len() > 0 {
            ("CELL_TYPES ".spec_bytes() + dec_digits(t.types@.len()) + "".spec_bytes()).push(10u8)
                + i32_items(old(vtk).binary_mode(), t.types@)
        } else {
            Seq::empty()
        }.push(10u8),
{
    let n = t.types.len();
    if n > 0 {
        vtk.write_header_usize("CELL_TYPES ", n, "");
        vtk.write_i32_slice(t.types.as_slice());
    }
    vtk.newline();
}

/// Writes several slices of values one after the other, then the separator
/// line.
pub fn write_cell_i32_values(vtk: &mut VtkWriter, slices: &[&[i32]])
    requires
        old(vtk).wf(),
    ensures
        final(vtk).wf(),
        final(vtk).binary_mode() == old(vtk).binary_mode(),
        final(vtk).legacy_mode() == old(vtk).legacy_mode(),
        final(vtk).emitted() == (old(vtk).emitted() + i32_items(
            old(vtk).binary_mode(),
            concat_i32(slices@),
        )).push(10u8),
{
    let ghost binary = vtk.binary_mode();
    let mut k: usize = 0;
    while k < slices.len()
        invariant
            vtk.wf(),
            k <= slices@.len(),
            binary == vtk.binary_mode(),
            vtk.binary_mode() == old(vtk).binary_mode(),
            vtk.legacy_mode() == old(vtk).legacy_mode(),
            vtk.emitted() == old(vtk).emitted() + i32_items(
                binary,
                concat_i32(slices@.subrange(0, k as int)),
            ),
        decreases slices@.len() - k,
    {
        vtk.write_i32_slice(slices[k]);
        proof {
            let pre = slices@.subrange(0, k as int);
            assert(slices@.subrange(0, k + 1).drop_last() =~= pre);
            assert(slices@.subrange(0, k + 1).last() == slices@[k as int]);
            lemma_i32_items_append(binary, concat_i32(pre), slices@[k as int]@);
        }
        k += 1;
    }
    assert(slices@.subrange(0, slices@.len() as int) =~= slices@);
    vtk.newline();
}

/// The erosion status of each element: 1 for a deletion byte of 1, else 0.
pub fn erosion_status(deleted: &[u8]) -> (r: Vec<i32>)
    ensures
        r@.len() == deleted@.len(),
        forall|i: int|
            0 <= i < deleted@.len() ==> #[trigger] r@[i] == if deleted@[i] == 1 {
                1i32
            } else {
                0i32
            },
{
    let mut r: Vec<i32> = Vec::new();
    let mut k: usize = 0;
    while k < deleted.len()
        invariant
            k <= deleted@.len(),
            r@.len() == k,
            forall|i: int|
                0 <= i < k ==> #[trigger] r@[i] == if deleted@[i] == 1 {
                    1i32
                } else {
                    0i32
                },
        decreases deleted@.len() - k,
    {
        r.push(if deleted[k] == 1 { 1 } else { 0 });
        k += 1;
    }
    r
}

/// The part id of each element of a class.
pub open spec fn class_part_ids(c: ElementClass) -> Seq<i32> {
    Seq::new(
        c.count as nat,
        |i: int|
            part_id_at(
                name_views(c.part_names@),
                part_slot(part_cursor(c.def_part@, (i + 1) as nat)),
            ) as i32,
    )
}

/// The erosion status of each element of a class: 1 for a deletion byte of
/// 1, else 0.
pub open spec fn class_erosion(c: ElementClass) -> Seq<i32> {
    c.deleted@.map_values(|b: u8| if b == 1 {
        1i32
    } else {
        0i32
    })
}

/// The header lines of an integer cell scalar named `name`.
pub open spec fn int_scalar_header(name: &str) -> Seq<u8> {
    ("SCALARS ".spec_bytes() + name.spec_bytes() + " int 1".spec_bytes()).push(10u8) + (
    "LOOKUP_TABLE default".spec_bytes()).push(10u8)
}

/// Writes an integer cell scalar `name` whose values are those of the four
/// classes one after the other.
fn write_class_ints(
    vtk: &mut VtkWriter,
    name: &str,
    a: &Vec<i32>,
    b: &Vec<i32>,
    c: &Vec<i32>,
    d: &Vec<i32>,
)
    requires
        old(vtk).wf(),
    ensures
        final(vtk).wf(),
        final(vtk).binary_mode() == old(vtk).binary_mode(),
        final(vtk).legacy_mode() == old(vtk).legacy_mode(),
        final(vtk).emitted() == (old(vtk).emitted() + int_scalar_header(name) + i32_items(
            old(vtk).binary_mode(),
            a@ + b@ + c@ + d@,
        )).push(10u8),
{
    vtk.write_header_name_suffix("SCALARS ", name, " int 1");
    vtk.write_header("LOOKUP_TABLE default");
    let sa = a.as_slice();
    let sb = b.as_slice();
    let sc = c.as_slice();
    let sd = d.as_slice();
    let slices: [&[i32]; 4] = [sa, sb, sc, sd];
    proof {
        let v = slices@;
        assert(v =~= seq![sa, sb, sc, sd]);
        assert(v.drop_last() =~= seq![sa, sb, sc]);
        assert(seq![sa].drop_last() =~= Seq::<&[i32]>::empty());
        assert(seq![sa].last() == sa);
        assert(concat_i32(Seq::<&[i32]>::empty()) == Seq::<i32>::empty());
        assert(concat_i32(seq![sa]) =~= sa@);
        assert(seq![sa, sb].drop_last() =~= seq![sa]);
        assert(concat_i32(seq![sa, sb]) =~= sa@ + sb@);
        assert(seq![sa, sb, sc].drop_last() =~= seq![sa, sb]);
        assert(concat_i32(seq![sa, sb, sc]) =~= sa@ + sb@ + sc@);
        assert(concat_i32(v) =~= a@ + b@ + c@ + d@);
    }
    write_cell_i32_values(vtk, &slices);
    assert(vtk.emitted() =~= (old(vtk).emitted() + int_scalar_header(name) + i32_items(
        old(vtk).binary_mode(),
        a@ + b@ + c@ + d@,
    )).push(10u8));
}

/// Writes the element id of every cell, over the four classes in the order
/// 1D, 2D, 3D, SPH, as the `ELEMENT_ID` cell scalar.
pub fn write_element_ids(
    vtk: &mut VtkWriter,
    beams: &ElementClass,
    shells: &ElementClass,
    solids: &ElementClass,
    sph: &ElementClass,
)
    requires
        old(vtk).wf(),
    ensures
        final(vtk).wf(),
        final(vtk).binary_mode() == old(vtk).binary_mode(),
        final(vtk).legacy_mode() == old(vtk).legacy_mode(),
        final(vtk).emitted() == (old(vtk).emitted() + int_scalar_header("ELEMENT_ID") + i32_items(
            old(vtk).binary_mode(),
            beams.ids@ + shells.ids@ + solids.ids@ + sph.ids@,
        )).push(10u8),
{
    write_class_ints(vtk, "ELEMENT_ID", &beams.ids, &shells.ids, &solids.ids, &sph.ids);
}

/// Writes the part id of every cell, over the four classes in the order
/// 1D, 2D, 3D, SPH, as the `PART_ID` cell scalar.
pub fn write_part_ids(
    vtk: &mut VtkWriter,
    beams: &ElementClass,
    shells: &ElementClass,
    solids: &ElementClass,
    sph: &ElementClass,
)
    requires
        old(vtk).wf(),
    ensures
        final(vtk).wf(),
        final(vtk).binary_mode() == old(vtk).binary_mode(),
        final(vtk).legacy_mode() == old(vtk).legacy_mode(),
        final(vtk).emitted() == (old(vtk).emitted() + int_scalar_header("PART_ID") + i32_items(
            old(vtk).binary_mode(),
            class_part_ids(*beams) + class_part_ids(*shells) + class_part_ids(*solids)
                + class_part_ids(*sph),
        )).push(10u8),
{
    let a = part_ids(beams.count, beams.def_part.as_slice(), beams.part_names.as_slice());
    let b = part_ids(shells.count, shells.def_part.as_slice(), shells.part_names.as_slice());
    let c = part_ids(solids.count, solids.def_part.as_slice(), solids.part_names.as_slice());
    let d = part_ids(sph.count, sph.def_part.as_slice(), sph.part_names.as_slice());
    assert(a@ =~= class_part_ids(*beams));
    assert(b@ =~= class_part_ids(*shells));
    assert(c@ =~= class_part_ids(*solids));
    assert(d@ =~= class_part_ids(*sph));
    write_class_ints(vtk, "PART_ID", &a, &b, &c, &d);
}

/// Writes the erosion status of every cell (1 for an eroded element, else
/// 0), over the four classes in the order 1D, 2D, 3D, SPH, as the
/// `EROSION_STATUS` cell scalar.
pub fn write_erosion_status(
    vtk: &mut VtkWriter,
    beams: &ElementClass,
    shells: &ElementClass,
    solids: &ElementClass,
    sph: &ElementClass,
)
    requires
        old(vtk).wf(),
    ensures
        final(vtk).wf(),
        final(vtk).binary_mode() == old(vtk).binary_mode(),
        final(vtk).legacy_mode() == old(vtk).legacy_mode(),
        final(vtk).emitted() == (old(vtk).emitted() + int_scalar_header("EROSION_STATUS")
            + i32_items(
            old(vtk).binary_mode(),
            class_erosion(*beams) + class_erosion(*shells) + class_erosion(*solids) + class_erosion(
                *sph,
            ),
        )).push(10u8),
{
    let a = erosion_status(beams.deleted.as_slice());
    let b = erosion_status(shells.deleted.as_slice());
    let c = erosion_status(solids.deleted.as_slice());
    let d = erosion_status(sph.deleted.as_slice());
    assert(a@ =~= class_erosion(*beams));
    assert(b@ =~= class_erosion(*shells));
    assert(c@ =~= class_erosion(*solids));
    assert(d@ =~= class_erosion(*sph));
    write_class_ints(vtk, "EROSION_STATUS", &a, &b, &c, &d);
}

/// Every cell section has one entry per element of the four classes: the
/// CELLS rows and CELL_TYPES codes of the cell table, and the PART_ID and
/// EROSION_STATUS values; ELEMENT_ID too when every class carries its
/// numbering.
pub proof fn lemma_cell_sections_sized(m: &AnimModel, rows: Seq<Vec<i32>>, types: Seq<i32>)
    requires
        m.wf(),
        describes_cells(m, rows, types),
    ensures
        rows.len() == m.cell_count(),
        types.len() == m.cell_count(),
        (class_part_ids(m.beams) + class_part_ids(m.shells) + class_part_ids(m.solids)
            + class_part_ids(m.sph)).len() == m.cell_count(),
        (class_erosion(m.beams) + class_erosion(m.shells) + class_erosion(m.solids) + class_erosion(
            m.sph,
        )).len() == m.cell_count(),
        m.beams.ids@.len() == m.beams.count && m.shells.ids@.len() == m.shells.count
            && m.solids.ids@.len() == m.solids.count && m.sph.ids@.len() == m.sph.count ==> (
        m.beams.ids@ + m.shells.ids@ + m.solids.ids@ + m.sph.ids@).len() == m.cell_count(),
{
}

} // verus!
