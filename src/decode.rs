//! The snapshot decoder: one linear pass over the stream, section by
//! section, each section present or absent by the header's feature flags.
use vstd::prelude::*;
use crate::model::{
    AnimModel, ElementClass, NodeTable, BEAM_ARITY, BEAM_TENSOR_WIDTH, SHELL_ARITY,
    SHELL_TENSOR_WIDTH, SOLID_ARITY, SOLID_TENSOR_WIDTH, SPH_ARITY, SPH_TENSOR_WIDTH,
};
use crate::reader::{
    be_i32, be_u32, read_bytes, read_f32_bits, read_f32_bits_vec, read_i32, read_i32_vec,
    read_text, read_u16_vec, replace_underscore, DecodeError, Reader, lossy_utf8, trim_nuls,
    underscored,
};

verus! {

/// Magic number of the one supported variant of the format.
pub const ANIM_MAGIC: i32 = 0x542c;

/// Width of a banner or field-name text.
pub const NAME_WIDTH: usize = 81;

/// Width of a part, subset, material or property name text.
pub const SHORT_NAME_WIDTH: usize = 50;

/// Number of entries of the feature-flag vector.
pub const FLAG_COUNT: usize = 10;

/// Offset of the node count in a stream of the supported variant: magic,
/// time, three banners and the flag vector come first.
pub const NODE_COUNT_OFFSET: usize = 291;

/// `v` is the table of 32-bit integers stored big-endian from `at`.
pub open spec fn ints_at(data: Seq<u8>, at: int, v: Seq<i32>) -> bool {
    forall|k: int| 0 <= k < v.len() ==> #[trigger] v[k] == be_i32(data, at + 4 * k)
}

/// `v` is the table of single-precision bit patterns stored big-endian from
/// `at`.
pub open spec fn words_at(data: Seq<u8>, at: int, v: Seq<u32>) -> bool {
    forall|k: int| 0 <= k < v.len() ==> #[trigger] v[k] == be_u32(data, at + 4 * k)
}

/// The text of a `width`-byte field at `at`: NUL padding dropped, the rest
/// decoded permissively.
pub open spec fn text_at(data: Seq<u8>, at: int, width: int) -> Seq<char> {
    lossy_utf8(trim_nuls(data.subrange(at, at + width)))
}

/// `v` holds the texts of consecutive `width`-byte fields from `at`.
pub open spec fn texts_at(data: Seq<u8>, at: int, width: int, v: Seq<String>) -> bool {
    forall|k: int| 0 <= k < v.len() ==> #[trigger] v[k]@ == text_at(data, at + k * width, width)
}

/// `v` holds the field names stored from `at`, spaces turned into
/// underscores.
pub open spec fn names_at(data: Seq<u8>, at: int, v: Seq<String>) -> bool {
    forall|k: int|
        0 <= k < v.len() ==> #[trigger] v[k]@ == underscored(
            text_at(data, at + k * NAME_WIDTH, NAME_WIDTH as int),
        )
}

/// Reads a count; a negative one cannot be satisfied by any stream.
fn read_count(r: &mut Reader) -> (res: Result<usize, DecodeError>)
    requires
        old(r).wf(),
    ensures
        final(r).wf(),
        final(r).data == old(r).data,
        final(r).pos >= old(r).pos,
        res.is_ok() <==> old(r).remaining() >= 4 && be_i32(old(r).data@, old(r).pos as int) >= 0,
        res matches Ok(n) ==> n as int == be_i32(old(r).data@, old(r).pos as int) && final(r).pos
            == old(r).pos + 4,
        res matches Err(e) ==> e == DecodeError::Truncated,
{
    let v = read_i32(r)?;
    if v < 0 {
        return Err(DecodeError::Truncated);
    }
    Ok(v as usize)
}

/// The product of two counts; one that overflows cannot be satisfied by any
/// stream.
fn mul_count(a: usize, b: usize) -> (res: Result<usize, DecodeError>)
    ensures
        res matches Ok(n) ==> n == a * b,
        res.is_ok() <==> a * b <= usize::MAX,
        res matches Err(e) ==> e == DecodeError::Truncated,
{
    if a == 0 {
        assert(a * b == 0) by (nonlinear_arith)
            requires
                a == 0,
        ;
        return Ok(0);
    }
    if b > usize::MAX / a {
        assert(a * b > usize::MAX) by (nonlinear_arith)
            requires
                a > 0,
                b > usize::MAX / a,
        ;
        return Err(DecodeError::Truncated);
    }
    assert(a * b <= usize::MAX) by (nonlinear_arith)
        requires
            a > 0,
            b <= usize::MAX / a,
    ;
    Ok(a * b)
}

/// Reads `n` fixed-width texts.
fn read_texts(r: &mut Reader, n: usize, width: usize) -> (res: Result<Vec<String>, DecodeError>)
    requires
        old(r).wf(),
    ensures
        final(r).wf(),
        final(r).data == old(r).data,
        final(r).pos >= old(r).pos,
        res.is_ok() <==> old(r).remaining() >= n * width,
        res matches Ok(v) ==> v@.len() == n && final(r).pos == old(r).pos + n * width && texts_at(
            old(r).data@,
            old(r).pos as int,
            width as int,
            v@,
        ),
        res matches Err(e) ==> e == DecodeError::Truncated,
{
    let mut v: Vec<String> = Vec::new();
    let mut k: usize = 0;
    while k < n
        invariant
            r.wf(),
            r.data == old(r).data,
            r.pos == old(r).pos + k * width,
            k <= n,
            v@.len() == k,
            texts_at(old(r).data@, old(r).pos as int, width as int, v@),
        decreases n - k,
    {
        match read_text(r, width) {
            Ok(t) => {
                let ghost v0 = v@;
                v.push(t);
                assert forall|j: int| 0 <= j < v@.len() implies #[trigger] v@[j]@ == text_at(
                    old(r).data@,
                    old(r).pos + j * width,
                    width as int,
                ) by {
                    if j < k {
                        assert(v@[j] == v0[j]);
                    }
                }
            },
            Err(e) => {
                let ghost rem0 = old(r).remaining();
                assert(rem0 < n * width) by (nonlinear_arith)
                    requires
                        rem0 - k * width < width,
                        k < n,
                ;
                return Err(e);
            },
        }
        assert((k + 1) * width == k * width + width) by (nonlinear_arith);
        k += 1;
    }
    Ok(v)
}

/// Reads `n` field names, each with its spaces turned into underscores.
fn read_names(r: &mut Reader, n: usize) -> (res: Result<Vec<String>, DecodeError>)
    requires
        old(r).wf(),
    ensures
        final(r).wf(),
        final(r).data == old(r).data,
        final(r).pos >= old(r).pos,
        res.is_ok() <==> old(r).remaining() >= n * NAME_WIDTH,
        res matches Ok(v) ==> v@.len() == n && final(r).pos == old(r).pos + n * NAME_WIDTH
            && names_at(old(r).data@, old(r).pos as int, v@),
        res matches Err(e) ==> e == DecodeError::Truncated,
{
    let texts = read_texts(r, n, NAME_WIDTH)?;
    let mut v: Vec<String> = Vec::new();
    let mut k: usize = 0;
    while k < texts.len()
        invariant
            k <= texts@.len(),
            v@.len() == k,
            texts_at(old(r).data@, old(r).pos as int, NAME_WIDTH as int, texts@),
            forall|j: int| 0 <= j < k ==> #[trigger] v@[j]@ == underscored(texts@[j]@),
        decreases texts@.len() - k,
    {
        let ghost v0 = v@;
        v.push(replace_underscore(texts[k].as_str()));
        assert forall|j: int| 0 <= j < k + 1 implies #[trigger] v@[j]@ == underscored(texts@[j]@) by {
            if j < k {
                assert(v@[j] == v0[j]);
            }
        }
        k += 1;
    }
    assert forall|j: int| 0 <= j < v@.len() implies #[trigger] v@[j]@ == underscored(
        text_at(old(r).data@, old(r).pos + j * NAME_WIDTH, NAME_WIDTH as int),
    ) by {
        assert(texts@[j]@ == text_at(old(r).data@, old(r).pos + j * NAME_WIDTH, NAME_WIDTH as int));
    }
    Ok(v)
}

/// Skips `n` big-endian 32-bit values.
fn skip_words(r: &mut Reader, n: usize) -> (res: Result<(), DecodeError>)
    requires
        old(r).wf(),
    ensures
        final(r).wf(),
        final(r).data == old(r).data,
        final(r).pos >= old(r).pos,
        res.is_ok() <==> old(r).remaining() >= 4 * n,
        res is Ok ==> final(r).pos == old(r).pos + 4 * n,
        res matches Err(e) ==> e == DecodeError::Truncated,
{
    let _ = read_i32_vec(r, n)?;
    Ok(())
}

/// Reads `n` 32-bit integers (a numbering or boundary table).
fn int_table(r: &mut Reader, n: usize) -> (res: Result<Vec<i32>, DecodeError>)
    requires
        old(r).wf(),
    ensures
        final(r).wf(),
        final(r).data == old(r).data,
        final(r).pos >= old(r).pos,
        res.is_ok() <==> old(r).remaining() >= 4 * n,
        res matches Ok(v) ==> v@.len() == n && final(r).pos == old(r).pos + 4 * n && ints_at(
            old(r).data@,
            old(r).pos as int,
            v@,
        ),
        res matches Err(e) ==> e == DecodeError::Truncated,
{
    read_i32_vec(r, n)
}

/// Reads `n` single-precision values as bit patterns.
fn float_table(r: &mut Reader, n: usize) -> (res: Result<Vec<u32>, DecodeError>)
    requires
        old(r).wf(),
    ensures
        final(r).wf(),
        final(r).data == old(r).data,
        final(r).pos >= old(r).pos,
        res.is_ok() <==> old(r).remaining() >= 4 * n,
        res matches Ok(v) ==> v@.len() == n && final(r).pos == old(r).pos + 4 * n && words_at(
            old(r).data@,
            old(r).pos as int,
            v@,
        ),
        res matches Err(e) ==> e == DecodeError::Truncated,
{
    read_f32_bits_vec(r, n)
}

/// Skips `n` big-endian 16-bit values.
fn skip_halfwords(r: &mut Reader, n: usize) -> (res: Result<(), DecodeError>)
    requires
        old(r).wf(),
    ensures
        final(r).wf(),
        final(r).data == old(r).data,
        final(r).pos >= old(r).pos,
        res.is_ok() <==> old(r).remaining() >= 2 * n,
        res is Ok ==> final(r).pos == old(r).pos + 2 * n,
        res matches Err(e) ==> e == DecodeError::Truncated,
{
    let _ = read_u16_vec(r, n)?;
    Ok(())
}

/// A connectivity table stored as big-endian words from `at`, followed by
/// its deletion bytes.
pub open spec fn topology_at(data: Seq<u8>, at: int, connect: Seq<i32>, deleted: Seq<u8>) -> bool {
    &&& forall|k: int|
        0 <= k < connect.len() ==> #[trigger] connect[k] == be_i32(data, at + 4 * k)
    &&& deleted == data.subrange(at + 4 * connect.len(), at + 4 * connect.len() + deleted.len())
}

/// Connectivity, `arity` ids per element, followed by one deletion byte
/// per element.
fn decode_topology(r: &mut Reader, count: usize, arity: usize) -> (res: Result<
    (Vec<i32>, Vec<u8>),
    DecodeError,
>)
    requires
        old(r).wf(),
    ensures
        final(r).wf(),
        final(r).data == old(r).data,
        final(r).pos >= old(r).pos,
        res matches Err(e) ==> e == DecodeError::Truncated,
        res.is_ok() <==> count * arity <= usize::MAX && old(r).remaining() >= 4 * (count * arity)
            + count,
        res is Ok ==> final(r).pos == old(r).pos + 4 * (count * arity) + count,
        res matches Ok((c, d)) ==> {
            &&& c@.len() == count * arity
            &&& d@.len() == count
            &&& forall|k: int|
                0 <= k < count * arity ==> #[trigger] c@[k] == be_i32(old(r).data@, old(r).pos + 4 * k)
            &&& d@ == old(r).data@.subrange(
                old(r).pos + 4 * count * arity,
                old(r).pos + 4 * count * arity + count,
            )
        },
{
    let n = mul_count(count, arity)?;
    let connect = read_i32_vec(r, n)?;
    let deleted = read_bytes(r, count)?;
    assert(4 * count * arity == 4 * n) by (nonlinear_arith)
        requires
            n == count * arity,
    ;
    Ok((connect, deleted))
}

/// Bytes taken by the 2D mesh tables: skew frames, coordinates,
/// connectivity and deletion bytes, parts, normals.
pub open spec fn shell_mesh_len(nodes: int, facets: int, parts: int, skew: int) -> int {
    (if skew > 0 {
        2 * (skew * 6)
    } else {
        0
    }) + 4 * (3 * nodes) + (4 * (facets * 4) + facets) + 4 * parts + parts * 50 + 2 * (3 * nodes)
}

/// The 2D mesh tables stored from `o`: coordinates, connectivity and
/// deletion bytes, part boundaries and names.
pub open spec fn mesh_stored_at(
    data: Seq<u8>,
    o: int,
    coords: Seq<u32>,
    connect: Seq<i32>,
    deleted: Seq<u8>,
    def_part: Seq<i32>,
    part_names: Seq<String>,
) -> bool {
    let o_topo = o + 4 * coords.len();
    let o_def = o_topo + 4 * connect.len() + deleted.len();
    &&& words_at(data, o, coords)
    &&& topology_at(data, o_topo, connect, deleted)
    &&& ints_at(data, o_def, def_part)
    &&& texts_at(data, o_def + 4 * def_part.len(), SHORT_NAME_WIDTH as int, part_names)
}

/// The 2D mesh: optional skew frames (skipped), node coordinates, the
/// connectivity and deletion bytes, the part table, the normals (skipped).
fn decode_shell_mesh(
    r: &mut Reader,
    nb_nodes: usize,
    nb_facets: usize,
    nb_parts: usize,
    nb_skew: usize,
) -> (res: Result<(Vec<u32>, Vec<i32>, Vec<u8>, Vec<i32>, Vec<String>), DecodeError>)
    requires
        old(r).wf(),
    ensures
        final(r).wf(),
        final(r).data == old(r).data,
        final(r).pos >= old(r).pos,
        res matches Err(e) ==> e == DecodeError::Truncated,
        res.is_ok() <==> shell_mesh_len(
            nb_nodes as int,
            nb_facets as int,
            nb_parts as int,
            nb_skew as int,
        ) <= old(r).remaining(),
        res is Ok ==> final(r).pos - old(r).pos == shell_mesh_len(
            nb_nodes as int,
            nb_facets as int,
            nb_parts as int,
            nb_skew as int,
        ),
        res matches Ok((coords, connect, deleted, def_part, part_names)) ==> {
            &&& coords@.len() == 3 * nb_nodes
            &&& connect@.len() == nb_facets * SHELL_ARITY
            &&& deleted@.len() == nb_facets
            &&& def_part@.len() == nb_parts
            &&& part_names@.len() == nb_parts
            &&& mesh_stored_at(
                old(r).data@,
                old(r).pos + 12 * nb_skew,
                coords@,
                connect@,
                deleted@,
                def_part@,
                part_names@,
            )
        },
{
    proof {
        assert(nb_skew * 6 >= 0 && nb_facets * 4 >= 0) by (nonlinear_arith);
    }
    if nb_skew > 0 {
        skip_halfwords(r, mul_count(nb_skew, 6)?)?;
    }
    let ghost o_c = r.pos as int;
    let coords = float_table(r, mul_count(3, nb_nodes)?)?;
    let ghost at = r.pos;
    assert(at == old(r).pos + 12 * nb_skew + 12 * nb_nodes);
    let (connect, deleted) = decode_topology(r, nb_facets, SHELL_ARITY)?;
    proof {
        assert(4 * nb_facets * SHELL_ARITY == 4 * connect@.len()) by (nonlinear_arith)
            requires
                connect@.len() == nb_facets * SHELL_ARITY,
        ;
        assert(topology_at(old(r).data@, at as int, connect@, deleted@));
    }
    let def_part = int_table(r, nb_parts)?;
    let part_names = read_texts(r, nb_parts, SHORT_NAME_WIDTH)?;
    skip_halfwords(r, mul_count(3, nb_nodes)?)?;
    Ok((coords, connect, deleted, def_part, part_names))
}

/// The named fields of the 2D section stored from `o`: node and element
/// scalar names (one list), node scalars, element scalars, vector names and
/// values, tensor names and values, then (past the mass tables) the node
/// and element numbering when the flags select it.
pub open spec fn shell_fields_stored_at(
    data: Seq<u8>,
    o: int,
    flags: Seq<i32>,
    nb_nodes: int,
    nb_facets: int,
    node_scalar_names: Seq<String>,
    elem_scalar_names: Seq<String>,
    node_scalars: Seq<u32>,
    elem_scalars: Seq<u32>,
    vector_names: Seq<String>,
    vectors: Seq<u32>,
    tensor_names: Seq<String>,
    tensors: Seq<u32>,
    node_ids: Seq<i32>,
    elem_ids: Seq<i32>,
) -> bool {
    let o_ns = o + (node_scalar_names.len() + elem_scalar_names.len()) * NAME_WIDTH;
    let o_es = o_ns + 4 * node_scalars.len();
    let o_vn = o_es + 4 * elem_scalars.len();
    let o_vv = o_vn + vector_names.len() * NAME_WIDTH;
    let o_tn = o_vv + 4 * vectors.len();
    let o_tv = o_tn + tensor_names.len() * NAME_WIDTH;
    let o_ids = o_tv + 4 * tensors.len() + (if flags[0] == 1 {
        4 * nb_facets + 4 * nb_nodes
    } else {
        0
    });
    &&& names_at(data, o, node_scalar_names + elem_scalar_names)
    &&& words_at(data, o_ns, node_scalars)
    &&& words_at(data, o_es, elem_scalars)
    &&& names_at(data, o_vn, vector_names)
    &&& words_at(data, o_vv, vectors)
    &&& names_at(data, o_tn, tensor_names)
    &&& words_at(data, o_tv, tensors)
    &&& (if flags[1] != 0 {
        ints_at(data, o_ids, node_ids) && ints_at(data, o_ids + 4 * node_ids.len(), elem_ids)
    } else {
        node_ids.len() == 0 && elem_ids.len() == 0
    })
}

/// The named fields and optional tables of the 2D section.
struct ShellFields {
    node_scalar_names: Vec<String>,
    node_scalars: Vec<u32>,
    elem_scalar_names: Vec<String>,
    elem_scalars: Vec<u32>,
    vector_names: Vec<String>,
    vectors: Vec<u32>,
    tensor_names: Vec<String>,
    tensors: Vec<u32>,
    node_ids: Vec<i32>,
    elem_ids: Vec<i32>,
}

/// Bytes taken by the named fields and optional tables of the 2D section.
pub open spec fn shell_fields_len(
    flags: Seq<i32>,
    nodes: int,
    facets: int,
    parts: int,
    func: int,
    efunc: int,
    vect: int,
    tens: int,
) -> int {
    (func + efunc) * 81 + 4 * (nodes * func) + 4 * (facets * efunc) + vect * 81 + 4 * ((3 * nodes)
        * vect) + tens * 81 + 4 * ((facets * 3) * tens) + (if flags[0] == 1 {
        4 * facets + 4 * nodes
    } else {
        0
    }) + (if flags[1] != 0 {
        4 * nodes + 4 * facets
    } else {
        0
    }) + (if flags[4] != 0 {
        3 * (4 * parts)
    } else {
        0
    })
}

/// The named fields of the 2D section: node and element scalar names, node
/// scalars, element scalars, node vectors, element tensors; then the mass
/// (skipped), numbering and hierarchy (skipped) tables that the flags select.
#[verifier::rlimit(50)]
fn decode_shell_fields(
    r: &mut Reader,
    flags: &Vec<i32>,
    nb_nodes: usize,
    nb_facets: usize,
    nb_parts: usize,
    nb_func: usize,
    nb_efunc: usize,
    nb_vect: usize,
    nb_tens: usize,
) -> (res: Result<ShellFields, DecodeError>)
    requires
        old(r).wf(),
        flags@.len() == FLAG_COUNT,
        12 * nb_nodes <= usize::MAX,
        16 * nb_facets <= usize::MAX,
    ensures
        final(r).wf(),
        final(r).data == old(r).data,
        final(r).pos >= old(r).pos,
        res matches Err(e) ==> e == DecodeError::Truncated,
        res.is_ok() <==> shell_fields_len(
            flags@,
            nb_nodes as int,
            nb_facets as int,
            nb_parts as int,
            nb_func as int,
            nb_efunc as int,
            nb_vect as int,
            nb_tens as int,
        ) <= old(r).remaining(),
        res is Ok ==> final(r).pos - old(r).pos == shell_fields_len(
            flags@,
            nb_nodes as int,
            nb_facets as int,
            nb_parts as int,
            nb_func as int,
            nb_efunc as int,
            nb_vect as int,
            nb_tens as int,
        ),
        res matches Ok(f) ==> {
            &&& f.node_scalar_names@.len() == nb_func
            &&& f.node_scalars@.len() == nb_func * nb_nodes
            &&& f.elem_scalar_names@.len() == nb_efunc
            &&& f.elem_scalars@.len() == nb_efunc * nb_facets
            &&& f.vectors@.len() == 3 * nb_nodes * f.vector_names@.len()
            &&& f.tensors@.len() == nb_facets * SHELL_TENSOR_WIDTH * f.tensor_names@.len()
            &&& (f.node_ids@.len() == nb_nodes || f.node_ids@.len() == 0)
            &&& (f.elem_ids@.len() == nb_facets || f.elem_ids@.len() == 0)
            &&& shell_fields_stored_at(
                old(r).data@,
                old(r).pos as int,
                flags@,
                nb_nodes as int,
                nb_facets as int,
                f.node_scalar_names@,
                f.elem_scalar_names@,
                f.node_scalars@,
                f.elem_scalars@,
                f.vector_names@,
                f.vectors@,
                f.tensor_names@,
                f.tensors@,
                f.node_ids@,
                f.elem_ids@,
            )
        },
{
    proof {
        assert(nb_nodes * nb_func >= 0 && nb_facets * nb_efunc >= 0 && (3 * nb_nodes) * nb_vect >= 0
            && (nb_facets * 3) * nb_tens >= 0) by (nonlinear_arith);
    }
    if nb_func > usize::MAX - nb_efunc {
        assert((nb_func + nb_efunc) * 81 > usize::MAX) by (nonlinear_arith)
            requires
                nb_func + nb_efunc > usize::MAX,
        ;
        return Err(DecodeError::Truncated);
    }
    let mut node_scalar_names = read_names(r, nb_func + nb_efunc)?;
    let ghost all_names = node_scalar_names@;
    let elem_scalar_names = node_scalar_names.split_off(nb_func);
    assert(node_scalar_names@ + elem_scalar_names@ =~= all_names);
    let node_scalars = float_table(r, mul_count(nb_nodes, nb_func)?)?;
    let elem_scalars = float_table(r, mul_count(nb_facets, nb_efunc)?)?;
    let vector_names = read_names(r, nb_vect)?;
    let vectors = float_table(r, mul_count(3 * nb_nodes, nb_vect)?)?;
    let tensor_names = read_names(r, nb_tens)?;
    let tensors = float_table(r, mul_count(nb_facets * SHELL_TENSOR_WIDTH, nb_tens)?)?;
    if flags[0] == 1 {
        let _elem_mass = float_table(r, nb_facets)?;
        let _node_mass = float_table(r, nb_nodes)?;
    }
    let mut node_ids: Vec<i32> = Vec::new();
    let mut elem_ids: Vec<i32> = Vec::new();
    if flags[1] != 0 {
        node_ids = int_table(r, nb_nodes)?;
        elem_ids = int_table(r, nb_facets)?;
    }
    if flags[4] != 0 {
        skip_words(r, nb_parts)?;
        skip_words(r, nb_parts)?;
        skip_words(r, nb_parts)?;
    }
    proof {
        assert(node_scalars@.len() == nb_func * nb_nodes) by (nonlinear_arith)
            requires
                node_scalars@.len() == nb_nodes * nb_func,
        ;
        assert(elem_scalars@.len() == nb_efunc * nb_facets) by (nonlinear_arith)
            requires
                elem_scalars@.len() == nb_facets * nb_efunc,
        ;
    }
    Ok(
        ShellFields {
            node_scalar_names,
            node_scalars,
            elem_scalar_names,
            elem_scalars,
            vector_names,
            vectors,
            tensor_names,
            tensors,
            node_ids,
            elem_ids,
        },
    )
}

/// The node table and 2D class are the ones stored in the 2D section that
/// starts at `p`: their counts, mesh tables and named fields.
pub open spec fn shell_stored_at(
    data: Seq<u8>,
    p: int,
    flags: Seq<i32>,
    nodes: NodeTable,
    shells: ElementClass,
) -> bool {
    let o = p + 32 + 12 * be_i32(data, p + 28);
    let o_fields = o + 4 * nodes.coords@.len() + 4 * shells.connect@.len() + shells.deleted@.len() + 4
        * shells.def_part@.len() + shells.part_names@.len() * SHORT_NAME_WIDTH + 2 * (3 * nodes.count);
    &&& nodes.count as int == be_i32(data, p)
    &&& shells.count as int == be_i32(data, p + 4)
    &&& mesh_stored_at(
        data,
        o,
        nodes.coords@,
        shells.connect@,
        shells.deleted@,
        shells.def_part@,
        shells.part_names@,
    )
    &&& shell_fields_stored_at(
        data,
        o_fields,
        flags,
        nodes.count as int,
        shells.count as int,
        nodes.scalar_names@,
        shells.scalar_names@,
        nodes.scalars@,
        shells.scalars@,
        nodes.vector_names@,
        nodes.vectors@,
        shells.tensor_names@,
        shells.tensors@,
        nodes.ids@,
        shells.ids@,
    )
}

/// Bytes taken by the 2D section that starts at `p`, or `None` when its
/// counts cannot be read or one is negative.
pub open spec fn shell_len(data: Seq<u8>, p: int, flags: Seq<i32>) -> Option<int> {
    let nodes = be_i32(data, p) as int;
    let facets = be_i32(data, p + 4) as int;
    let parts = be_i32(data, p + 8) as int;
    let func = be_i32(data, p + 12) as int;
    let efunc = be_i32(data, p + 16) as int;
    let vect = be_i32(data, p + 20) as int;
    let tens = be_i32(data, p + 24) as int;
    let skew = be_i32(data, p + 28) as int;
    if data.len() < p + 32 || nodes < 0 || facets < 0 || parts < 0 || func < 0 || efunc < 0 || vect
        < 0 || tens < 0 || skew < 0 {
        None
    } else {
        Some(
            32 + shell_mesh_len(nodes, facets, parts, skew) + shell_fields_len(
                flags,
                nodes,
                facets,
                parts,
                func,
                efunc,
                vect,
                tens,
            ),
        )
    }
}

/// The decoded header.
pub struct Header {
    pub time_bits: u32,
    pub flags: Vec<i32>,
}

/// Header: magic, time, three banners, the feature-flag vector.
pub fn decode_header(r: &mut Reader) -> (res: Result<Header, DecodeError>)
    requires
        old(r).wf(),
    ensures
        final(r).wf(),
        final(r).data == old(r).data,
        final(r).pos >= old(r).pos,
        old(r).remaining() < 4 ==> res == Err::<Header, DecodeError>(DecodeError::Truncated),
        old(r).remaining() >= 4 && be_i32(old(r).data@, old(r).pos as int) != ANIM_MAGIC ==> res
            == Err::<Header, DecodeError>(DecodeError::UnsupportedFormat),
        res matches Err(e) ==> e == DecodeError::Truncated || e == DecodeError::UnsupportedFormat,
        res == Err::<Header, DecodeError>(DecodeError::UnsupportedFormat) ==> old(r).remaining() >= 4
            && be_i32(old(r).data@, old(r).pos as int) != ANIM_MAGIC,
        res.is_ok() <==> old(r).remaining() >= NODE_COUNT_OFFSET && be_i32(
            old(r).data@,
            old(r).pos as int,
        ) == ANIM_MAGIC,
        res matches Ok(h) ==> {
            &&& be_i32(old(r).data@, old(r).pos as int) == ANIM_MAGIC
            &&& h.time_bits == be_u32(old(r).data@, old(r).pos + 4)
            &&& h.flags@.len() == FLAG_COUNT
            &&& forall|k: int|
                0 <= k < FLAG_COUNT ==> #[trigger] h.flags@[k] == be_i32(
                    old(r).data@,
                    old(r).pos + 251 + 4 * k,
                )
            &&& final(r).pos == old(r).pos + NODE_COUNT_OFFSET
        },
{
    let magic = read_i32(r)?;
    if magic != ANIM_MAGIC {
        return Err(DecodeError::UnsupportedFormat);
    }
    let time_bits = read_f32_bits(r)?;
    let _time_text = read_text(r, NAME_WIDTH)?;
    let _model_text = read_text(r, NAME_WIDTH)?;
    let _run_text = read_text(r, NAME_WIDTH)?;
    let flags = read_i32_vec(r, FLAG_COUNT)?;
    Ok(Header { time_bits, flags })
}

/// The 2D section, which also carries the node table: counts, optional
/// skew frames, coordinates, connectivity and deletion flags, parts, normals
/// (skipped), named node and element scalars, node vectors, element tensors,
/// then the mass, numbering and hierarchy tables that the flags select.
pub fn decode_shells(r: &mut Reader, flags: &Vec<i32>) -> (res: Result<
    (NodeTable, ElementClass),
    DecodeError,
>)
    requires
        old(r).wf(),
        flags@.len() == FLAG_COUNT,
    ensures
        final(r).wf(),
        final(r).data == old(r).data,
        final(r).pos >= old(r).pos,
        res matches Err(e) ==> e == DecodeError::Truncated,
        res.is_ok() <==> (shell_len(old(r).data@, old(r).pos as int, flags@) matches Some(l) && l
            <= old(r).remaining()),
        res is Ok ==> shell_len(old(r).data@, old(r).pos as int, flags@) == Some(
            final(r).pos - old(r).pos,
        ),
        res matches Ok((nodes, shells)) ==> {
            &&& nodes.wf()
            &&& shells.wf(SHELL_ARITY as nat, SHELL_TENSOR_WIDTH as nat)
            &&& nodes.count as int == be_i32(old(r).data@, old(r).pos as int)
            &&& shells.count as int == be_i32(old(r).data@, old(r).pos + 4)
            &&& topology_at(
                old(r).data@,
                old(r).pos + 32 + 12 * be_i32(old(r).data@, old(r).pos + 28) + 12 * nodes.count,
                shells.connect@,
                shells.deleted@,
            )
            &&& shell_stored_at(old(r).data@, old(r).pos as int, flags@, nodes, shells)
        },
{
    let nb_nodes = read_count(r)?;
    let nb_facets = read_count(r)?;
    let nb_parts = read_count(r)?;
    let nb_func = read_count(r)?;
    let nb_efunc = read_count(r)?;
    let nb_vect = read_count(r)?;
    let nb_tens = read_count(r)?;
    let nb_skew = read_count(r)?;
    assert(r.pos == old(r).pos + 32);
    let (coords, connect, deleted, def_part, part_names) = decode_shell_mesh(
        r,
        nb_nodes,
        nb_facets,
        nb_parts,
        nb_skew,
    )?;
    let f = decode_shell_fields(
        r,
        flags,
        nb_nodes,
        nb_facets,
        nb_parts,
        nb_func,
        nb_efunc,
        nb_vect,
        nb_tens,
    )?;
    let nodes = NodeTable {
        count: nb_nodes,
        coords,
        scalar_names: f.node_scalar_names,
        scalars: f.node_scalars,
        vector_names: f.vector_names,
        vectors: f.vectors,
        ids: f.node_ids,
    };
    let shells = ElementClass {
        count: nb_facets,
        connect,
        deleted,
        def_part,
        part_names,
        scalar_names: f.elem_scalar_names,
        scalars: f.elem_scalars,
        tensor_names: f.tensor_names,
        tensors: f.tensors,
        ids: f.elem_ids,
    };
    Ok((nodes, shells))
}

/// Bytes taken by the tables of a 1D, 3D or SPH section after its counts.
pub open spec fn class_body_len(
    flags: Seq<i32>,
    count: int,
    parts: int,
    scalars: int,
    tensors: int,
    skewed: bool,
    arity: int,
    width: int,
) -> int {
    (4 * (count * arity) + count) + 4 * parts + parts * 50 + scalars * 81 + 4 * (scalars * count)
        + tensors * 81 + 4 * (count * (width * tensors)) + (if skewed {
        4 * count
    } else {
        0
    }) + (if flags[0] == 1 {
        4 * count
    } else {
        0
    }) + (if flags[1] == 1 {
        4 * count
    } else {
        0
    }) + (if flags[4] != 0 {
        3 * (4 * parts)
    } else {
        0
    })
}

/// Bytes taken by a 1D, 3D or SPH section that starts at `p` (see
/// `decode_class`), or `None` when its counts cannot be read or one is
/// negative.
pub open spec fn class_len(
    data: Seq<u8>,
    p: int,
    flags: Seq<i32>,
    arity: int,
    width: int,
    with_skew: bool,
) -> Option<int> {
    let head: int = if with_skew {
        20
    } else {
        16
    };
    let count = be_i32(data, p) as int;
    let parts = be_i32(data, p + 4) as int;
    let scalars = be_i32(data, p + 8) as int;
    let tensors = be_i32(data, p + 12) as int;
    let skewed = with_skew && be_i32(data, p + 16) != 0;
    if data.len() < p + head || count < 0 || parts < 0 || scalars < 0 || tensors < 0 {
        None
    } else {
        Some(head + class_body_len(flags, count, parts, scalars, tensors, skewed, arity, width))
    }
}

/// The tables of a 1D, 3D or SPH class `c` as stored from `p`, right after
/// its counts: connectivity and deletion bytes, part boundaries and names,
/// scalar names and values, tensor names and values, then (past the skew
/// and mass tables) the numbering when the flags select it.
pub open spec fn class_tables_at(
    data: Seq<u8>,
    p: int,
    flags: Seq<i32>,
    skewed: bool,
    c: ElementClass,
) -> bool {
    let n = c.count as int;
    let o_def = p + 4 * c.connect@.len() + n;
    let o_pn = o_def + 4 * c.def_part@.len();
    let o_sn = o_pn + c.part_names@.len() * SHORT_NAME_WIDTH;
    let o_sv = o_sn + c.scalar_names@.len() * NAME_WIDTH;
    let o_tn = o_sv + 4 * c.scalars@.len();
    let o_tv = o_tn + c.tensor_names@.len() * NAME_WIDTH;
    let o_ids = o_tv + 4 * c.tensors@.len() + (if skewed {
        4 * n
    } else {
        0
    }) + (if flags[0] == 1 {
        4 * n
    } else {
        0
    });
    &&& topology_at(data, p, c.connect@, c.deleted@)
    &&& ints_at(data, o_def, c.def_part@)
    &&& texts_at(data, o_pn, SHORT_NAME_WIDTH as int, c.part_names@)
    &&& names_at(data, o_sn, c.scalar_names@)
    &&& words_at(data, o_sv, c.scalars@)
    &&& names_at(data, o_tn, c.tensor_names@)
    &&& words_at(data, o_tv, c.tensors@)
    &&& (if flags[1] == 1 {
        ints_at(data, o_ids, c.ids@)
    } else {
        c.ids@.len() == 0
    })
}

/// The tables of a 1D, 3D or SPH section, after its counts.
#[verifier::rlimit(50)]
fn decode_class_body(
    r: &mut Reader,
    flags: &Vec<i32>,
    count: usize,
    nb_parts: usize,
    nb_scalars: usize,
    nb_tensors: usize,
    skewed: bool,
    arity: usize,
    width: usize,
) -> (res: Result<ElementClass, DecodeError>)
    requires
        old(r).wf(),
        flags@.len() == FLAG_COUNT,
        width <= NAME_WIDTH,
    ensures
        final(r).wf(),
        final(r).data == old(r).data,
        final(r).pos >= old(r).pos,
        res matches Err(e) ==> e == DecodeError::Truncated,
        res.is_ok() <==> class_body_len(
            flags@,
            count as int,
            nb_parts as int,
            nb_scalars as int,
            nb_tensors as int,
            skewed,
            arity as int,
            width as int,
        ) <= old(r).remaining(),
        res is Ok ==> final(r).pos - old(r).pos == class_body_len(
            flags@,
            count as int,
            nb_parts as int,
            nb_scalars as int,
            nb_tensors as int,
            skewed,
            arity as int,
            width as int,
        ),
        res matches Ok(c) ==> {
            &&& c.wf(arity as nat, width as nat)
            &&& c.count == count
            &&& class_tables_at(old(r).data@, old(r).pos as int, flags@, skewed, c)
        },
{
    let ghost d = old(r).data@;
    proof {
        assert(count * arity >= 0 && nb_scalars * count >= 0 && width * nb_tensors >= 0)
            by (nonlinear_arith);
        assert(count * (width * nb_tensors) >= 0) by (nonlinear_arith);
        assert(width * nb_tensors <= nb_tensors * NAME_WIDTH) by (nonlinear_arith)
            requires
                width <= NAME_WIDTH,
        ;
    }
    let (connect, deleted) = decode_topology(r, count, arity)?;
    let ghost o_def = r.pos as int;
    let def_part = int_table(r, nb_parts)?;
    let ghost o_pn = r.pos as int;
    let part_names = read_texts(r, nb_parts, SHORT_NAME_WIDTH)?;
    let ghost o_sn = r.pos as int;
    let scalar_names = read_names(r, nb_scalars)?;
    let ghost o_sv = r.pos as int;
    let scalars = float_table(r, mul_count(nb_scalars, count)?)?;
    let ghost o_tn = r.pos as int;
    let tensor_names = read_names(r, nb_tensors)?;
    let ghost o_tv = r.pos as int;
    let tensors = float_table(r, mul_count(count, mul_count(width, nb_tensors)?)?)?;
    if skewed {
        skip_words(r, count)?;
    }
    if flags[0] == 1 {
        let _mass = float_table(r, count)?;
    }
    let ghost o_ids = r.pos as int;
    let mut ids: Vec<i32> = Vec::new();
    if flags[1] == 1 {
        ids = int_table(r, count)?;
    }
    if flags[4] != 0 {
        skip_words(r, nb_parts)?;
        skip_words(r, nb_parts)?;
        skip_words(r, nb_parts)?;
    }
    proof {
        assert(4 * count * arity == 4 * connect@.len()) by (nonlinear_arith)
            requires
                connect@.len() == count * arity,
        ;
        assert(scalars@.len() == scalar_names@.len() * count) by (nonlinear_arith)
            requires
                scalars@.len() == nb_scalars * count,
                scalar_names@.len() == nb_scalars,
        ;
        assert(tensors@.len() == count * width * tensor_names@.len()) by (nonlinear_arith)
            requires
                tensors@.len() == count * (width * nb_tensors),
                tensor_names@.len() == nb_tensors,
        ;
    }
    Ok(
        ElementClass {
            count,
            connect,
            deleted,
            def_part,
            part_names,
            scalar_names,
            scalars,
            tensor_names,
            tensors,
            ids,
        },
    )
}

/// A 1D, 3D or SPH section: counts (and, for 1D, a flag that a per-element
/// skew table follows), connectivity with `arity` ids per element, deletion
/// flags, parts, named scalars, named tensors of `width` components, the
/// skew table, then the mass, numbering and hierarchy tables that the flags
/// select.
///
/// `width` is at most the width of a name, which bounds the size of the
/// tensor table by that of its names.
pub fn decode_class(
    r: &mut Reader,
    flags: &Vec<i32>,
    arity: usize,
    width: usize,
    with_skew: bool,
) -> (res: Result<ElementClass, DecodeError>)
    requires
        old(r).wf(),
        flags@.len() == FLAG_COUNT,
        width <= NAME_WIDTH,
    ensures
        final(r).wf(),
        final(r).data == old(r).data,
        final(r).pos >= old(r).pos,
        res matches Err(e) ==> e == DecodeError::Truncated,
        res.is_ok() <==> (class_len(
            old(r).data@,
            old(r).pos as int,
            flags@,
            arity as int,
            width as int,
            with_skew,
        ) matches Some(l) && l <= old(r).remaining()),
        res is Ok ==> class_len(
            old(r).data@,
            old(r).pos as int,
            flags@,
            arity as int,
            width as int,
            with_skew,
        ) == Some(final(r).pos - old(r).pos),
        res matches Ok(c) ==> {
            let at = old(r).pos + if with_skew {
                20int
            } else {
                16int
            };
            &&& c.wf(arity as nat, width as nat)
            &&& c.count as int == be_i32(old(r).data@, old(r).pos as int)
            &&& class_tables_at(
                old(r).data@,
                at,
                flags@,
                with_skew && be_i32(old(r).data@, old(r).pos + 16) != 0,
                c,
            )
        },
{
    let count = read_count(r)?;
    let nb_parts = read_count(r)?;
    let nb_scalars = read_count(r)?;
    let nb_tensors = read_count(r)?;
    let mut skew = 0i32;
    if with_skew {
        skew = read_i32(r)?;
    }
    decode_class_body(r, flags, count, nb_parts, nb_scalars, nb_tensors, skew != 0, arity, width)
}

/// End of a count followed by that many 32-bit values, read at `q`; `None`
/// when the count cannot be read or is negative.
pub open spec fn counted_end(data: Seq<u8>, q: int) -> Option<int> {
    if data.len() < q + 4 || be_i32(data, q) < 0 {
        None
    } else {
        Some(q + 4 + 4 * be_i32(data, q))
    }
}

pub open spec fn then_counted(data: Seq<u8>, e: Option<int>) -> Option<int> {
    match e {
        Some(q) => counted_end(data, q),
        None => None,
    }
}

/// End of one subset record at `q`: its name, its parent, then its child
/// subsets and its 2D, 3D and 1D parts, each a counted list.
pub open spec fn subset_end(data: Seq<u8>, q: int) -> Option<int> {
    if data.len() < q + 54 {
        None
    } else {
        then_counted(
            data,
            then_counted(data, then_counted(data, counted_end(data, q + 54))),
        )
    }
}

/// End of `n` subset records from `q`.
pub open spec fn subsets_end(data: Seq<u8>, q: int, n: nat) -> Option<int>
    decreases n,
{
    if n == 0 {
        Some(q)
    } else {
        match subset_end(data, q) {
            Some(e) => subsets_end(data, e, (n - 1) as nat),
            None => None,
        }
    }
}

/// End of the part hierarchy at `p`: the subset count and records, then the
/// material and property counts, names and types.
pub open spec fn hierarchy_end(data: Seq<u8>, p: int) -> Option<int> {
    if data.len() < p + 4 || be_i32(data, p) < 0 {
        None
    } else {
        match subsets_end(data, p + 4, be_i32(data, p) as nat) {
            Some(q) => {
                let m = be_i32(data, q) as int;
                let pr = be_i32(data, q + 4) as int;
                if data.len() < q + 8 || m < 0 || pr < 0 {
                    None
                } else {
                    Some(q + 8 + (m * 50 + 4 * m) + (pr * 50 + 4 * pr))
                }
            },
            None => None,
        }
    }
}

proof fn lemma_counted_end_grows(data: Seq<u8>, q: int)
    ensures
        counted_end(data, q) matches Some(e) ==> e >= q + 4,
{
}

proof fn lemma_subsets_end_grows(data: Seq<u8>, q: int, n: nat)
    ensures
        subsets_end(data, q, n) matches Some(e) ==> e >= q,
    decreases n,
{
    if n > 0 {
        if let Some(e) = subset_end(data, q) {
            lemma_subsets_end_grows(data, e, (n - 1) as nat);
        }
    }
}

/// A count and that many 32-bit values, skipped.
fn skip_counted(r: &mut Reader) -> (res: Result<(), DecodeError>)
    requires
        old(r).wf(),
    ensures
        final(r).wf(),
        final(r).data == old(r).data,
        final(r).pos >= old(r).pos,
        res matches Err(e) ==> e == DecodeError::Truncated,
        res.is_ok() <==> (counted_end(old(r).data@, old(r).pos as int) matches Some(e) && e
            <= old(r).data@.len()),
        res is Ok ==> counted_end(old(r).data@, old(r).pos as int) == Some(final(r).pos as int),
{
    let n = read_count(r)?;
    skip_words(r, n)?;
    Ok(())
}

/// One subset record, skipped.
fn skip_subset(r: &mut Reader) -> (res: Result<(), DecodeError>)
    requires
        old(r).wf(),
    ensures
        final(r).wf(),
        final(r).data == old(r).data,
        final(r).pos >= old(r).pos,
        res matches Err(e) ==> e == DecodeError::Truncated,
        res.is_ok() <==> (subset_end(old(r).data@, old(r).pos as int) matches Some(e) && e
            <= old(r).data@.len()),
        res is Ok ==> subset_end(old(r).data@, old(r).pos as int) == Some(final(r).pos as int),
{
    let ghost data = old(r).data@;
    let ghost q = old(r).pos as int;
    let _name = read_text(r, SHORT_NAME_WIDTH)?;
    let _parent = read_i32(r)?;
    let ghost q1 = counted_end(data, q + 54);
    let ghost q2 = then_counted(data, q1);
    let ghost q3 = then_counted(data, q2);
    proof {
        if let Some(e) = q1 {
            lemma_counted_end_grows(data, q + 54);
        }
        if let Some(e) = q2 {
            lemma_counted_end_grows(data, q1->Some_0);
        }
        if let Some(e) = q3 {
            lemma_counted_end_grows(data, q2->Some_0);
        }
    }
    skip_counted(r)?;
    skip_counted(r)?;
    skip_counted(r)?;
    skip_counted(r)?;
    Ok(())
}

/// The part hierarchy: the subset tree, then material and property names
/// and types.  Read and dropped.
pub fn skip_hierarchy(r: &mut Reader) -> (res: Result<(), DecodeError>)
    requires
        old(r).wf(),
    ensures
        final(r).wf(),
        final(r).data == old(r).data,
        final(r).pos >= old(r).pos,
        res matches Err(e) ==> e == DecodeError::Truncated,
        res.is_ok() <==> (hierarchy_end(old(r).data@, old(r).pos as int) matches Some(e) && e
            <= old(r).data@.len()),
        res is Ok ==> hierarchy_end(old(r).data@, old(r).pos as int) == Some(final(r).pos as int),
{
    let ghost data = old(r).data@;
    let nb_subsets = read_count(r)?;
    let mut k: usize = 0;
    while k < nb_subsets
        invariant
            r.wf(),
            r.data == old(r).data,
            data == old(r).data@,
            r.pos >= old(r).pos,
            k <= nb_subsets,
            nb_subsets as int == be_i32(data, old(r).pos as int),
            data.len() >= old(r).pos + 4,
            subsets_end(data, old(r).pos + 4, nb_subsets as nat) == subsets_end(
                data,
                r.pos as int,
                (nb_subsets - k) as nat,
            ),
        decreases nb_subsets - k,
    {
        let ghost q = r.pos as int;
        match skip_subset(r) {
            Ok(()) => {},
            Err(e) => {
                proof {
                    if let Some(x) = subset_end(data, q) {
                        lemma_subsets_end_grows(data, x, (nb_subsets - k - 1) as nat);
                    }
                }
                return Err(e);
            },
        }
        k += 1;
    }
    let ghost q = r.pos as int;
    assert(subsets_end(data, q, 0) == Some(q));
    let nb_materials = read_count(r)?;
    let nb_properties = read_count(r)?;
    let _material_names = read_texts(r, nb_materials, SHORT_NAME_WIDTH)?;
    skip_words(r, nb_materials)?;
    let _property_names = read_texts(r, nb_properties, SHORT_NAME_WIDTH)?;
    skip_words(r, nb_properties)?;
    Ok(())
}

/// Bytes taken by the time-history reference tables that start at `p`, or
/// `None` when their counts cannot be read or one is negative.
pub open spec fn time_history_len(data: Seq<u8>, p: int) -> Option<int> {
    let a = be_i32(data, p) as int;
    let b = be_i32(data, p + 4) as int;
    let c = be_i32(data, p + 8) as int;
    let d = be_i32(data, p + 12) as int;
    if data.len() < p + 16 || a < 0 || b < 0 || c < 0 || d < 0 {
        None
    } else {
        Some(16 + (4 * a + a * 50) + (4 * b + b * 50) + (4 * c + c * 50) + (4 * d + d * 50))
    }
}

/// The time-history reference tables (nodes, 2D, 3D and 1D elements): ids
/// and names.  Read and dropped.
pub fn skip_time_history(r: &mut Reader) -> (res: Result<(), DecodeError>)
    requires
        old(r).wf(),
    ensures
        final(r).wf(),
        final(r).data == old(r).data,
        final(r).pos >= old(r).pos,
        res matches Err(e) ==> e == DecodeError::Truncated,
        res.is_ok() <==> (time_history_len(old(r).data@, old(r).pos as int) matches Some(l) && l
            <= old(r).remaining()),
        res is Ok ==> time_history_len(old(r).data@, old(r).pos as int) == Some(
            final(r).pos - old(r).pos,
        ),
{
    let nb_nodes = read_count(r)?;
    let nb_2d = read_count(r)?;
    let nb_3d = read_count(r)?;
    let nb_1d = read_count(r)?;
    skip_words(r, nb_nodes)?;
    let _node_names = read_texts(r, nb_nodes, SHORT_NAME_WIDTH)?;
    skip_words(r, nb_2d)?;
    let _shell_names = read_texts(r, nb_2d, SHORT_NAME_WIDTH)?;
    skip_words(r, nb_3d)?;
    let _solid_names = read_texts(r, nb_3d, SHORT_NAME_WIDTH)?;
    skip_words(r, nb_1d)?;
    let _beam_names = read_texts(r, nb_1d, SHORT_NAME_WIDTH)?;
    Ok(())
}

/// The feature flags as the header stores them.
pub open spec fn anim_flags(data: Seq<u8>) -> Seq<i32> {
    Seq::new(FLAG_COUNT as nat, |k: int| be_i32(data, 251 + 4 * k))
}

pub open spec fn shifted(q: int, l: Option<int>) -> Option<int> {
    match l {
        Some(n) => Some(q + n),
        None => None,
    }
}

/// End of stage `i` of the stream when it starts at `q`: 1 the 2D section,
/// 2 the 3D section, 3 the 1D section, 4 the part hierarchy, 5 the
/// time-history tables, 6 the SPH section.  A stage whose flag is unset
/// takes no bytes.
#[verifier::opaque]
pub open spec fn stage_end(data: Seq<u8>, flags: Seq<i32>, i: nat, q: int) -> Option<int> {
    if i == 1 {
        shifted(q, shell_len(data, q, flags))
    } else if i == 2 && flags[2] != 0 {
        shifted(q, class_len(data, q, flags, SOLID_ARITY as int, SOLID_TENSOR_WIDTH as int, false))
    } else if i == 3 && flags[3] != 0 {
        shifted(q, class_len(data, q, flags, BEAM_ARITY as int, BEAM_TENSOR_WIDTH as int, true))
    } else if i == 4 && flags[4] != 0 {
        hierarchy_end(data, q)
    } else if i == 5 && flags[5] != 0 {
        shifted(q, time_history_len(data, q))
    } else if i == 6 && flags[7] != 0 {
        shifted(q, class_len(data, q, flags, SPH_ARITY as int, SPH_TENSOR_WIDTH as int, false))
    } else {
        Some(q)
    }
}

/// End of stages `i` to 6 when they start at `s`.
pub open spec fn stages_end(data: Seq<u8>, flags: Seq<i32>, i: nat, s: Option<int>) -> Option<int>
    decreases 7 - i,
{
    if i > 6 {
        s
    } else {
        match s {
            Some(q) => stages_end(data, flags, i + 1, stage_end(data, flags, i, q)),
            None => None,
        }
    }
}

/// End of a whole stream: the header, then the six stages; `None` when the
/// magic number is wrong or a count cannot be read or is negative.
pub open spec fn anim_end(data: Seq<u8>) -> Option<int> {
    if data.len() < NODE_COUNT_OFFSET || be_i32(data, 0) != ANIM_MAGIC {
        None
    } else {
        stages_end(data, anim_flags(data), 1, Some(NODE_COUNT_OFFSET as int))
    }
}

/// Where stage `i` starts, when the stages before it could be read.
pub open spec fn stage_start(data: Seq<u8>, flags: Seq<i32>, i: nat) -> Option<int>
    decreases i,
{
    if i <= 1 {
        Some(NODE_COUNT_OFFSET as int)
    } else {
        match stage_start(data, flags, (i - 1) as nat) {
            Some(q) => stage_end(data, flags, (i - 1) as nat, q),
            None => None,
        }
    }
}

/// Class `c` is the one stored at `p`: its count there, then its tables
/// after the `head` bytes of counts.
pub open spec fn class_stored_at(
    data: Seq<u8>,
    p: int,
    head: int,
    flags: Seq<i32>,
    with_skew: bool,
    c: ElementClass,
) -> bool {
    &&& c.count as int == be_i32(data, p)
    &&& class_tables_at(data, p + head, flags, with_skew && be_i32(data, p + 16) != 0, c)
}

/// `s` ends past `len`, or not at all.
pub open spec fn overruns(s: Option<int>, len: int) -> bool {
    match s {
        Some(e) => e > len,
        None => true,
    }
}

proof fn lemma_stage_grows(data: Seq<u8>, flags: Seq<i32>, i: nat, q: int)
    requires
        flags.len() == FLAG_COUNT,
    ensures
        stage_end(data, flags, i, q) matches Some(e) ==> e >= q,
{
    reveal(stage_end);
    if let Some(l) = shell_len(data, q, flags) {
        let nodes = be_i32(data, q) as int;
        let facets = be_i32(data, q + 4) as int;
        let func = be_i32(data, q + 12) as int;
        let efunc = be_i32(data, q + 16) as int;
        let vect = be_i32(data, q + 20) as int;
        let tens = be_i32(data, q + 24) as int;
        let skew = be_i32(data, q + 28) as int;
        assert(skew * 6 >= 0 && facets * 4 >= 0 && nodes * func >= 0 && facets * efunc >= 0
            && (3 * nodes) * vect >= 0 && (facets * 3) * tens >= 0) by (nonlinear_arith)
            requires
                nodes >= 0,
                facets >= 0,
                func >= 0,
                efunc >= 0,
                vect >= 0,
                tens >= 0,
                skew >= 0,
        ;
    }
    lemma_class_len_grows(data, q, flags, SOLID_ARITY as int, SOLID_TENSOR_WIDTH as int, false);
    lemma_class_len_grows(data, q, flags, BEAM_ARITY as int, BEAM_TENSOR_WIDTH as int, true);
    lemma_class_len_grows(data, q, flags, SPH_ARITY as int, SPH_TENSOR_WIDTH as int, false);
    if data.len() >= q + 4 && be_i32(data, q) >= 0 {
        lemma_subsets_end_grows(data, q + 4, be_i32(data, q) as nat);
    }
}

proof fn lemma_class_len_grows(
    data: Seq<u8>,
    p: int,
    flags: Seq<i32>,
    arity: int,
    width: int,
    with_skew: bool,
)
    requires
        arity >= 0,
        width >= 0,
    ensures
        class_len(data, p, flags, arity, width, with_skew) matches Some(l) ==> l >= 0,
{
    let count = be_i32(data, p) as int;
    let scalars = be_i32(data, p + 8) as int;
    let tensors = be_i32(data, p + 12) as int;
    if count >= 0 && scalars >= 0 && tensors >= 0 {
        assert(count * arity >= 0 && scalars * count >= 0 && count * (width * tensors) >= 0)
            by (nonlinear_arith)
            requires
                count >= 0,
                scalars >= 0,
                tensors >= 0,
                arity >= 0,
                width >= 0,
        ;
    }
}

proof fn lemma_stages_overrun(data: Seq<u8>, flags: Seq<i32>, i: nat, s: Option<int>)
    requires
        flags.len() == FLAG_COUNT,
        overruns(s, data.len() as int),
    ensures
        overruns(stages_end(data, flags, i, s), data.len() as int),
    decreases 7 - i,
{
    if i <= 6 {
        if let Some(q) = s {
            lemma_stage_grows(data, flags, i, q);
            lemma_stages_overrun(data, flags, i + 1, stage_end(data, flags, i, q));
        }
    }
}

/// Stage 1: the 2D section with the node table.
fn stage_shells(r: &mut Reader, flags: &Vec<i32>) -> (res: Result<
    (NodeTable, ElementClass),
    DecodeError,
>)
    requires
        old(r).wf(),
        flags@.len() == FLAG_COUNT,
    ensures
        final(r).wf(),
        final(r).data == old(r).data,
        res matches Err(e) ==> e == DecodeError::Truncated && overruns(
            stage_end(old(r).data@, flags@, 1, old(r).pos as int),
            old(r).data@.len() as int,
        ),
        res is Ok ==> stage_end(old(r).data@, flags@, 1, old(r).pos as int) == Some(
            final(r).pos as int,
        ),
        res matches Ok((nodes, shells)) ==> {
            &&& nodes.wf()
            &&& shells.wf(SHELL_ARITY as nat, SHELL_TENSOR_WIDTH as nat)
            &&& nodes.count as int == be_i32(old(r).data@, old(r).pos as int)
            &&& shells.count as int == be_i32(old(r).data@, old(r).pos + 4)
            &&& topology_at(
                old(r).data@,
                old(r).pos + 32 + 12 * be_i32(old(r).data@, old(r).pos + 28) + 12 * nodes.count,
                shells.connect@,
                shells.deleted@,
            )
            &&& shell_stored_at(old(r).data@, old(r).pos as int, flags@, nodes, shells)
        },
{
    reveal(stage_end);
    decode_shells(r, flags)
}

/// Stage 2, 3 or 6: a 1D, 3D or SPH section when `present`, else nothing.
fn stage_class(
    r: &mut Reader,
    flags: &Vec<i32>,
    i: usize,
    present: bool,
    arity: usize,
    width: usize,
    with_skew: bool,
) -> (res: Result<ElementClass, DecodeError>)
    requires
        old(r).wf(),
        flags@.len() == FLAG_COUNT,
        (i == 2 && present == (flags@[2] != 0) && arity == SOLID_ARITY && width == SOLID_TENSOR_WIDTH
            && !with_skew) || (i == 3 && present == (flags@[3] != 0) && arity == BEAM_ARITY && width
            == BEAM_TENSOR_WIDTH && with_skew) || (i == 6 && present == (flags@[7] != 0) && arity
            == SPH_ARITY && width == SPH_TENSOR_WIDTH && !with_skew),
    ensures
        final(r).wf(),
        final(r).data == old(r).data,
        res matches Err(e) ==> e == DecodeError::Truncated && overruns(
            stage_end(old(r).data@, flags@, i as nat, old(r).pos as int),
            old(r).data@.len() as int,
        ),
        res is Ok ==> stage_end(old(r).data@, flags@, i as nat, old(r).pos as int) == Some(
            final(r).pos as int,
        ),
        res matches Ok(c) ==> c.wf(arity as nat, width as nat) && (!present ==> c.count == 0) && (
        present ==> class_stored_at(
            old(r).data@,
            old(r).pos as int,
            if with_skew {
                20int
            } else {
                16int
            },
            flags@,
            with_skew,
            c,
        )),
{
    reveal(stage_end);
    if present {
        decode_class(r, flags, arity, width, with_skew)
    } else {
        Ok(ElementClass::empty())
    }
}

/// Stage 4 or 5: the part hierarchy or the time-history tables when
/// `present`, else nothing.
fn stage_skip(r: &mut Reader, flags: &Vec<i32>, i: usize, present: bool) -> (res: Result<
    (),
    DecodeError,
>)
    requires
        old(r).wf(),
        flags@.len() == FLAG_COUNT,
        (i == 4 && present == (flags@[4] != 0)) || (i == 5 && present == (flags@[5] != 0)),
    ensures
        final(r).wf(),
        final(r).data == old(r).data,
        res matches Err(e) ==> e == DecodeError::Truncated && overruns(
            stage_end(old(r).data@, flags@, i as nat, old(r).pos as int),
            old(r).data@.len() as int,
        ),
        res is Ok ==> stage_end(old(r).data@, flags@, i as nat, old(r).pos as int) == Some(
            final(r).pos as int,
        ),
{
    reveal(stage_end);
    if !present {
        Ok(())
    } else if i == 4 {
        skip_hierarchy(r)
    } else {
        skip_time_history(r)
    }
}

/// Decodes a whole snapshot stream.
///
/// Succeeds exactly when the magic number is the supported one and the
/// stream holds every table that its counts and flags announce
/// (`anim_end`).  Fails with `UnsupportedFormat` when the magic number is
/// another, and with `Truncated` otherwise.  Sections whose flag is unset
/// are absent (empty); trailing bytes are not looked at.
pub fn decode_anim(data: &[u8]) -> (res: Result<AnimModel, DecodeError>)
    ensures
        data@.len() < 4 ==> res == Err::<AnimModel, DecodeError>(DecodeError::Truncated),
        data@.len() >= 4 && be_i32(data@, 0) != ANIM_MAGIC ==> res == Err::<
            AnimModel,
            DecodeError,
        >(DecodeError::UnsupportedFormat),
        res matches Err(e) ==> e == DecodeError::Truncated || e == DecodeError::UnsupportedFormat,
        res == Err::<AnimModel, DecodeError>(DecodeError::UnsupportedFormat) ==> data@.len() >= 4
            && be_i32(data@, 0) != ANIM_MAGIC,
        res.is_ok() <==> (anim_end(data@) matches Some(e) && e <= data@.len()),
        res matches Ok(m) ==> {
            &&& be_i32(data@, 0) == ANIM_MAGIC
            &&& m.wf()
            &&& m.time_bits == be_u32(data@, 4)
            &&& m.flags@ == anim_flags(data@)
            &&& m.nodes.count as int == be_i32(data@, NODE_COUNT_OFFSET as int)
            &&& m.shells.count as int == be_i32(data@, NODE_COUNT_OFFSET + 4)
            &&& topology_at(
                data@,
                NODE_COUNT_OFFSET + 32 + 12 * be_i32(data@, NODE_COUNT_OFFSET + 28) + 12
                    * m.nodes.count,
                m.shells.connect@,
                m.shells.deleted@,
            )
            &&& shell_stored_at(data@, NODE_COUNT_OFFSET as int, m.flags@, m.nodes, m.shells)
            &&& (m.flags@[2] == 0 ==> m.solids.count == 0)
            &&& (m.flags@[3] == 0 ==> m.beams.count == 0)
            &&& (m.flags@[7] == 0 ==> m.sph.count == 0)
            &&& (m.flags@[2] != 0 ==> (stage_start(data@, m.flags@, 2) matches Some(p)
                && class_stored_at(data@, p, 16, m.flags@, false, m.solids)))
            &&& (m.flags@[3] != 0 ==> (stage_start(data@, m.flags@, 3) matches Some(p)
                && class_stored_at(data@, p, 20, m.flags@, true, m.beams)))
            &&& (m.flags@[7] != 0 ==> (stage_start(data@, m.flags@, 6) matches Some(p)
                && class_stored_at(data@, p, 16, m.flags@, false, m.sph)))
        },
{
    let ghost d = data@;
    let ghost len = data@.len() as int;
    let mut r = Reader::new(data);
    let header = decode_header(&mut r)?;
    let flags = header.flags;
    let ghost fl = anim_flags(d);
    assert(flags@ =~= fl);
    let ghost q = r.pos as int;
    assert(q == NODE_COUNT_OFFSET);
    let ghost q1 = q;
    let (nodes, shells) = match stage_shells(&mut r, &flags) {
        Ok(v) => v,
        Err(e) => {
            proof {
                lemma_stages_overrun(d, fl, 2, stage_end(d, fl, 1, q));
            }
            return Err(e);
        },
    };
    let ghost q = r.pos as int;
    assert(anim_end(d) == stages_end(d, fl, 2, Some(q)));
    assert(stage_start(d, fl, 1) == Some(q1));
    assert(stage_start(d, fl, 2) == Some(q));
    let solids = match stage_class(&mut r, &flags, 2, flags[2] != 0, SOLID_ARITY, SOLID_TENSOR_WIDTH, false) {
        Ok(c) => c,
        Err(e) => {
            proof {
                lemma_stages_overrun(d, fl, 3, stage_end(d, fl, 2, q));
            }
            return Err(e);
        },
    };
    let ghost q = r.pos as int;
    assert(anim_end(d) == stages_end(d, fl, 3, Some(q)));
    assert(stage_start(d, fl, 3) == Some(q));
    let beams = match stage_class(&mut r, &flags, 3, flags[3] != 0, BEAM_ARITY, BEAM_TENSOR_WIDTH, true) {
        Ok(c) => c,
        Err(e) => {
            proof {
                lemma_stages_overrun(d, fl, 4, stage_end(d, fl, 3, q));
            }
            return Err(e);
        },
    };
    let ghost q = r.pos as int;
    assert(anim_end(d) == stages_end(d, fl, 4, Some(q)));
    assert(stage_start(d, fl, 4) == Some(q));
    if let Err(e) = stage_skip(&mut r, &flags, 4, flags[4] != 0) {
        proof {
            lemma_stages_overrun(d, fl, 5, stage_end(d, fl, 4, q));
        }
        return Err(e);
    }
    let ghost q = r.pos as int;
    assert(anim_end(d) == stages_end(d, fl, 5, Some(q)));
    assert(stage_start(d, fl, 5) == Some(q));
    if let Err(e) = stage_skip(&mut r, &flags, 5, flags[5] != 0) {
        proof {
            lemma_stages_overrun(d, fl, 6, stage_end(d, fl, 5, q));
        }
        return Err(e);
    }
    let ghost q = r.pos as int;
    assert(anim_end(d) == stages_end(d, fl, 6, Some(q)));
    assert(stage_start(d, fl, 6) == Some(q));
    let sph = match stage_class(&mut r, &flags, 6, flags[7] != 0, SPH_ARITY, SPH_TENSOR_WIDTH, false) {
        Ok(c) => c,
        Err(e) => {
            proof {
                lemma_stages_overrun(d, fl, 7, stage_end(d, fl, 6, q));
            }
            return Err(e);
        },
    };
    assert(anim_end(d) == stages_end(d, fl, 7, Some(r.pos as int)));
    Ok(AnimModel { time_bits: header.time_bits, flags, nodes, beams, shells, solids, sph })
}

} // verus!
