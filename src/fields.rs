//! Rearrangement of element field arrays for output: symmetric tensors
//! expanded to full 3x3 matrices, and one component picked out of
//! interleaved data.  Values are bit patterns of IEEE-754 singles; the bit
//! pattern 0 is the value 0.0.
use vstd::prelude::*;

verus! {

/// Row-major 3x3 matrix of a symmetric tensor stored as xx, yy, zz, xy,
/// xz, yz at `v[b..b + 6]`.
pub open spec fn sym6_matrix(v: Seq<u32>, b: int) -> Seq<u32> {
    seq![v[b], v[b + 3], v[b + 4], v[b + 3], v[b + 1], v[b + 5], v[b + 4], v[b + 5], v[b + 2]]
}

/// Row-major 3x3 matrix of a plane symmetric tensor stored as xx, yy, xy at
/// `v[b..b + 3]`; the third row and column are zero.
pub open spec fn sym3_matrix(v: Seq<u32>, b: int) -> Seq<u32> {
    seq![v[b], v[b + 2], 0u32, v[b + 2], v[b + 1], 0u32, 0u32, 0u32, 0u32]
}

/// Expands `count` six-component symmetric tensors to full matrices, nine
/// values per element, mirroring the off-diagonal terms.
pub fn expand_sym6(values: &[u32], count: usize) -> (r: Vec<u32>)
    requires
        values@.len() == 6 * count,
    ensures
        r@.len() == 9 * count,
        forall|i: int|
            0 <= i < count ==> #[trigger] r@.subrange(9 * i, 9 * i + 9) == sym6_matrix(
                values@,
                6 * i,
            ),
{
    let mut r: Vec<u32> = Vec::new();
    let vlen = values.len();
    let mut i: usize = 0;
    while i < count
        invariant
            vlen == values@.len(),
            values@.len() == 6 * count,
            i <= count,
            r@.len() == 9 * i,
            forall|k: int|
                0 <= k < i ==> #[trigger] r@.subrange(9 * k, 9 * k + 9) == sym6_matrix(
                    values@,
                    6 * k,
                ),
        decreases count - i,
    {
        assert(6 * i + 6 <= 6 * count) by (nonlinear_arith)
            requires
                i < count,
        ;
        let b = 6 * i;
        let ghost r0 = r@;
        r.push(values[b]);
        r.push(values[b + 3]);
        r.push(values[b + 4]);
        r.push(values[b + 3]);
        r.push(values[b + 1]);
        r.push(values[b + 5]);
        r.push(values[b + 4]);
        r.push(values[b + 5]);
        r.push(values[b + 2]);
        proof {
            assert(r@.subrange(9 * i, 9 * i + 9) =~= sym6_matrix(values@, 6 * i));
            assert forall|k: int| 0 <= k < i + 1 implies #[trigger] r@.subrange(9 * k, 9 * k + 9)
                == sym6_matrix(values@, 6 * k) by {
                if k < i {
                    assert(r@.subrange(9 * k, 9 * k + 9) =~= r0.subrange(9 * k, 9 * k + 9));
                }
            }
        }
        i += 1;
    }
    r
}

/// Expands `count` three-component plane symmetric tensors to full
/// matrices, nine values per element.
pub fn expand_sym3(values: &[u32], count: usize) -> (r: Vec<u32>)
    requires
        values@.len() == 3 * count,
    ensures
        r@.len() == 9 * count,
        forall|i: int|
            0 <= i < count ==> #[trigger] r@.subrange(9 * i, 9 * i + 9) == sym3_matrix(
                values@,
                3 * i,
            ),
{
    let mut r: Vec<u32> = Vec::new();
    let vlen = values.len();
    let mut i: usize = 0;
    while i < count
        invariant
            vlen == values@.len(),
            values@.len() == 3 * count,
            i <= count,
            r@.len() == 9 * i,
            forall|k: int|
                0 <= k < i ==> #[trigger] r@.subrange(9 * k, 9 * k + 9) == sym3_matrix(
                    values@,
                    3 * k,
                ),
        decreases count - i,
    {
        assert(3 * i + 3 <= 3 * count) by (nonlinear_arith)
            requires
                i < count,
        ;
        let b = 3 * i;
        let ghost r0 = r@;
        r.push(values[b]);
        r.push(values[b + 2]);
        r.push(0);
        r.push(values[b + 2]);
        r.push(values[b + 1]);
        r.push(0);
        r.push(0);
        r.push(0);
        r.push(0);
        proof {
            assert(r@.subrange(9 * i, 9 * i + 9) =~= sym3_matrix(values@, 3 * i));
            assert forall|k: int| 0 <= k < i + 1 implies #[trigger] r@.subrange(9 * k, 9 * k + 9)
                == sym3_matrix(values@, 3 * k) by {
                if k < i {
                    assert(r@.subrange(9 * k, 9 * k + 9) =~= r0.subrange(9 * k, 9 * k + 9));
                }
            }
        }
        i += 1;
    }
    r
}

/// Component `offset` of each of `count` interleaved records of `stride`
/// values (e.g. one of the nine force and moment components of a 1D
/// element).
pub fn strided_component(data: &[u32], stride: usize, offset: usize, count: usize) -> (r: Vec<
    u32,
>)
    requires
        offset < stride,
        data@.len() >= stride * count,
    ensures
        r@.len() == count,
        forall|i: int| 0 <= i < count ==> #[trigger] r@[i] == data@[i * stride + offset],
{
    let mut r: Vec<u32> = Vec::new();
    let dlen = data.len();
    let mut i: usize = 0;
    while i < count
        invariant
            dlen == data@.len(),
            offset < stride,
            data@.len() >= stride * count,
            i <= count,
            r@.len() == i,
            forall|k: int| 0 <= k < i ==> #[trigger] r@[k] == data@[k * stride + offset],
        decreases count - i,
    {
        assert(i * stride + offset < data@.len()) by (nonlinear_arith)
            requires
                i < count,
                offset < stride,
                data@.len() >= stride * count,
        ;
        r.push(data[i * stride + offset]);
        i += 1;
    }
    r
}

} // verus!
