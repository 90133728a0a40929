//! Classification of degenerate elements: a 2D element is always stored with
//! four node ids and a 3D element with eight; repeated ids mark triangles and
//! tetrahedra.
use vstd::prelude::*;

verus! {

/// Number of distinct values in `s`: each value counted at its first
/// occurrence.
pub open spec fn distinct_count(s: Seq<i32>) -> nat
    decreases s.len(),
{
    if s.len() == 0 {
        0
    } else {
        distinct_count(s.drop_last()) + if s.drop_last().contains(s.last()) {
            0nat
        } else {
            1nat
        }
    }
}

/// The distinct values of `s` in order of first occurrence.
pub open spec fn first_occurrences(s: Seq<i32>) -> Seq<i32>
    decreases s.len(),
{
    if s.len() == 0 {
        Seq::empty()
    } else if s.drop_last().contains(s.last()) {
        first_occurrences(s.drop_last())
    } else {
        first_occurrences(s.drop_last()).push(s.last())
    }
}

pub open spec fn strictly_ascending(s: Seq<i32>) -> bool {
    forall|i: int, j: int| 0 <= i < j < s.len() ==> s[i] < s[j]
}

proof fn lemma_first_occurrences(s: Seq<i32>)
    ensures
        first_occurrences(s).len() == distinct_count(s),
        first_occurrences(s).no_duplicates(),
        forall|x: i32| s.contains(x) <==> first_occurrences(s).contains(x),
    decreases s.len(),
{
    if s.len() > 0 {
        let p = s.drop_last();
        lemma_first_occurrences(p);
        assert forall|x: i32| s.contains(x) <==> (p.contains(x) || x == s.last()) by {
            if s.contains(x) {
                let k = choose|k: int| 0 <= k < s.len() && s[k] == x;
                if k < s.len() - 1 {
                    assert(p[k] == x);
                }
            }
            if p.contains(x) {
                let k = choose|k: int| 0 <= k < p.len() && p[k] == x;
                assert(s[k] == x);
            }
            if x == s.last() {
                assert(s[s.len() - 1] == x);
            }
        }
        let f = first_occurrences(p);
        if !p.contains(s.last()) {
            assert forall|x: i32| f.push(s.last()).contains(x) <==> (f.contains(x) || x == s.last()) by {
                if f.push(s.last()).contains(x) {
                    let k = choose|k: int| 0 <= k < f.len() + 1 && f.push(s.last())[k] == x;
                    if k < f.len() {
                        assert(f[k] == x);
                    }
                }
                if f.contains(x) {
                    let k = choose|k: int| 0 <= k < f.len() && f[k] == x;
                    assert(f.push(s.last())[k] == x);
                }
                if x == s.last() {
                    assert(f.push(s.last())[f.len() as int] == x);
                }
            }
        }
    }
}

/// Counts the distinct node ids of a four-node 2D element by pairwise
/// comparison: 3 marks a triangle, 4 a true quadrilateral.
pub fn unique_count_4(nodes: &[i32]) -> (count: usize)
    requires
        nodes@.len() == 4,
    ensures
        count == distinct_count(nodes@),
{
    let a = nodes[0];
    let b = nodes[1];
    let c = nodes[2];
    let d = nodes[3];
    let mut count: usize = 1;
    if b != a {
        count += 1;
    }
    if c != a && c != b {
        count += 1;
    }
    if d != a && d != b && d != c {
        count += 1;
    }
    proof {
        let s = nodes@;
        assert(s.drop_last().drop_last().drop_last().drop_last() =~= Seq::<i32>::empty());
        assert(s.drop_last().drop_last().drop_last() =~= seq![a]);
        assert(s.drop_last().drop_last() =~= seq![a, b]);
        assert(s.drop_last() =~= seq![a, b, c]);
        assert(seq![a, b, c].last() == c && seq![a, b, c].drop_last() =~= seq![a, b]);
        assert(seq![a, b].last() == b && seq![a, b].drop_last() =~= seq![a]);
        assert(seq![a].last() == a && seq![a].drop_last() =~= Seq::<i32>::empty());
        assert(!Seq::<i32>::empty().contains(a));
        assert(distinct_count(Seq::<i32>::empty()) == 0);
        assert(distinct_count(seq![a]) == 1);
        assert(distinct_count(seq![a, b]) == if b != a { 2nat } else { 1nat });
        assert(distinct_count(seq![a, b, c]) == distinct_count(seq![a, b]) + if c != a && c != b { 1nat } else { 0nat });
        assert(distinct_count(s) == distinct_count(seq![a, b, c]) + if d != a && d != b && d != c { 1nat } else { 0nat });
        assert(seq![a].contains(b) <==> b == a) by {
            if b == a {
                assert(seq![a][0] == b);
            }
        }
        assert(seq![a, b].contains(c) <==> (c == a || c == b)) by {
            if c == a {
                assert(seq![a, b][0] == c);
            }
            if c == b {
                assert(seq![a, b][1] == c);
            }
        }
        assert(seq![a, b, c].contains(d) <==> (d == a || d == b || d == c)) by {
            if d == a {
                assert(seq![a, b, c][0] == d);
            }
            if d == b {
                assert(seq![a, b, c][1] == d);
            }
            if d == c {
                assert(seq![a, b, c][2] == d);
            }
        }
    }
    count
}

proof fn lemma_distinct_count_prefix(s: Seq<i32>, k: int)
    requires
        0 <= k <= s.len(),
    ensures
        distinct_count(s.subrange(0, k)) <= distinct_count(s),
    decreases s.len() - k,
{
    if k < s.len() {
        lemma_distinct_count_prefix(s, k + 1);
        assert(s.subrange(0, k + 1).drop_last() =~= s.subrange(0, k));
    } else {
        assert(s.subrange(0, k) =~= s);
    }
}

proof fn lemma_contains4(s: Seq<i32>, x: i32)
    requires
        s.len() == 4,
    ensures
        s.contains(x) <==> (x == s[0] || x == s[1] || x == s[2] || x == s[3]),
{
    if x == s[0] || x == s[1] || x == s[2] || x == s[3] {
        if x == s[0] {
            assert(s[0] == x);
        } else if x == s[1] {
            assert(s[1] == x);
        } else if x == s[2] {
            assert(s[2] == x);
        } else {
            assert(s[3] == x);
        }
    }
}

/// Decides whether an eight-node 3D element is a degenerate tetrahedron.
///
/// Returns the four distinct node ids in ascending order when the element
/// has exactly four distinct ids, and `None` otherwise.  An element with
/// five to seven distinct ids is no valid pattern; it is passed through as a
/// hexahedron (`None`), so that the emitted cell keeps all eight stored ids.
pub fn unique_sorted_4_of_8(nodes: &[i32]) -> (r: Option<[i32; 4]>)
    requires
        nodes@.len() == 8,
    ensures
        r.is_some() <==> distinct_count(nodes@) == 4,
        r matches Some(u) ==> strictly_ascending(u@) && (forall|x: i32|
            nodes@.contains(x) <==> u@.contains(x)),
{
    let mut uniq: Vec<i32> = Vec::new();
    let mut k: usize = 0;
    while k < 8
        invariant
            nodes@.len() == 8,
            k <= 8,
            uniq@ == first_occurrences(nodes@.subrange(0, k as int)),
            uniq@.len() <= 4,
        decreases 8 - k,
    {
        let n = nodes[k];
        let ghost pre = nodes@.subrange(0, k as int);
        proof {
            lemma_first_occurrences(pre);
            assert(nodes@.subrange(0, k + 1).drop_last() =~= pre);
            assert(nodes@.subrange(0, k + 1).last() == n);
        }
        let mut seen = false;
        let mut i: usize = 0;
        while i < uniq.len()
            invariant
                i <= uniq@.len(),
                seen <==> exists|j: int| 0 <= j < i && uniq@[j] == n,
            decreases uniq@.len() - i,
        {
            if uniq[i] == n {
                seen = true;
            }
            i += 1;
        }
        proof {
            if seen {
                let j = choose|j: int| 0 <= j < i && uniq@[j] == n;
                assert(uniq@.contains(n));
            } else {
                assert(!uniq@.contains(n));
            }
        }
        if !seen {
            if uniq.len() == 4 {
                proof {
                    let p1 = nodes@.subrange(0, k + 1);
                    lemma_first_occurrences(p1);
                    assert(first_occurrences(p1) == uniq@.push(n));
                    lemma_distinct_count_prefix(nodes@, k + 1);
                }
                return None;
            }
            uniq.push(n);
        }
        k += 1;
    }
    proof {
        assert(nodes@.subrange(0, 8) =~= nodes@);
        lemma_first_occurrences(nodes@);
    }
    if uniq.len() == 4 {
        let mut a = uniq[0];
        let mut b = uniq[1];
        let mut c = uniq[2];
        let mut d = uniq[3];
        proof {
            assert(a != b && a != c && a != d && b != c && b != d && c != d) by {
                assert(uniq@.no_duplicates());
            }
        }
        let ghost (a0, b0, c0, d0) = (a, b, c, d);
        if a > b {
            let t = a;
            a = b;
            b = t;
        }
        if c > d {
            let t = c;
            c = d;
            d = t;
        }
        if a > c {
            let t = a;
            a = c;
            c = t;
        }
        if b > d {
            let t = b;
            b = d;
            d = t;
        }
        if b > c {
            let t = b;
            b = c;
            c = t;
        }
        let u = [a, b, c, d];
        proof {
            assert(u@ =~= seq![a, b, c, d]);
            assert forall|x: i32| nodes@.contains(x) <==> u@.contains(x) by {
                lemma_contains4(u@, x);
                lemma_contains4(uniq@, x);
            }
        }
        Some(u)
    } else {
        None
    }
}

/// The distinct node ids of an element in order of first occurrence: for a
/// degenerate quadrilateral, its triangle with the repeated position
/// dropped.
pub fn distinct_in_order(nodes: &[i32]) -> (r: Vec<i32>)
    ensures
        r@ == first_occurrences(nodes@),
        r@.len() == distinct_count(nodes@),
{
    let mut uniq: Vec<i32> = Vec::new();
    let mut k: usize = 0;
    while k < nodes.len()
        invariant
            k <= nodes@.len(),
            uniq@ == first_occurrences(nodes@.subrange(0, k as int)),
        decreases nodes@.len() - k,
    {
        let n = nodes[k];
        proof {
            let pre = nodes@.subrange(0, k as int);
            lemma_first_occurrences(pre);
            assert(nodes@.subrange(0, k + 1).drop_last() =~= pre);
            assert(nodes@.subrange(0, k + 1).last() == n);
        }
        let mut seen = false;
        let mut i: usize = 0;
        while i < uniq.len()
            invariant
                i <= uniq@.len(),
                seen <==> exists|j: int| 0 <= j < i && uniq@[j] == n,
            decreases uniq@.len() - i,
        {
            if uniq[i] == n {
                seen = true;
            }
            i += 1;
        }
        proof {
            if seen {
                let j = choose|j: int| 0 <= j < i && uniq@[j] == n;
                assert(uniq@.contains(n));
            }
        }
        if !seen {
            uniq.push(n);
        }
        k += 1;
    }
    proof {
        assert(nodes@.subrange(0, nodes@.len() as int) =~= nodes@);
        lemma_first_occurrences(nodes@);
    }
    uniq
}

} // verus!
