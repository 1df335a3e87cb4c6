//! Shape arithmetic: element counts, row-major strides, multi-index
//! unravelling and broadcasting of shapes.
use vstd::prelude::*;
use vstd::arithmetic::div_mod::*;
use vstd::arithmetic::mul::*;

verus! {

/// Product of the extents of `s` from axis `a` to the last axis.
pub open spec fn suffix_prod(s: Seq<usize>, a: int) -> nat
    decreases s.len() - a,
{
    if 0 <= a < s.len() {
        (s[a] as nat) * suffix_prod(s, a + 1)
    } else {
        1
    }
}

/// Number of elements of an array of shape `s`.
pub open spec fn shape_size(s: Seq<usize>) -> nat {
    suffix_prod(s, 0)
}

/// Every partial product of the extents, taken from the innermost axis, is a
/// valid `isize` stride.
pub open spec fn strides_fit(s: Seq<usize>) -> bool {
    forall|a: int| 0 <= a <= s.len() ==> #[trigger] suffix_prod(s, a) <= isize::MAX
}

/// Canonical row-major strides: innermost stride 1, each outer stride the
/// product of the inner extents.
pub open spec fn row_major_strides(s: Seq<usize>) -> Seq<isize> {
    Seq::new(s.len(), |a: int| suffix_prod(s, a + 1) as isize)
}

/// `idx` names one coordinate per axis, each below its extent.
pub open spec fn in_box(idx: Seq<usize>, s: Seq<usize>) -> bool {
    &&& idx.len() == s.len()
    &&& forall|a: int| 0 <= a < s.len() ==> #[trigger] idx[a] < s[a]
}

/// Sum of `idx[a] * st[a]` over the first `k` axes.
pub open spec fn dot(idx: Seq<usize>, st: Seq<isize>, k: int) -> int
    decreases k,
{
    if k <= 0 {
        0
    } else {
        dot(idx, st, k - 1) + (idx[k - 1] as int) * (st[k - 1] as int)
    }
}

/// Row-major multi-index of the `k`-th element of an array of shape `s`.
pub open spec fn unravel(k: int, s: Seq<usize>) -> Seq<usize> {
    Seq::new(s.len(), |a: int| ((k / (suffix_prod(s, a + 1) as int)) % (s[a] as int)) as usize)
}

/// Extent of axis `i` of `s` once `s` is aligned, by its trailing axis, to
/// rank `nd` (missing leading axes count as extent 1).
pub open spec fn padded_dim(s: Seq<usize>, nd: int, i: int) -> usize {
    if i < nd - s.len() {
        1
    } else {
        s[i - (nd - s.len())]
    }
}

pub open spec fn max_rank(a: Seq<usize>, b: Seq<usize>) -> int {
    if a.len() >= b.len() {
        a.len() as int
    } else {
        b.len() as int
    }
}

/// Two shapes broadcast together: on every aligned axis the extents are equal
/// or one of them is 1.
pub open spec fn broadcast_compatible(a: Seq<usize>, b: Seq<usize>) -> bool {
    forall|i: int|
        0 <= i < max_rank(a, b) ==> {
            let da = #[trigger] padded_dim(a, max_rank(a, b), i);
            let db = padded_dim(b, max_rank(a, b), i);
            da == db || da == 1 || db == 1
        }
}

/// The broadcast shape of `a` and `b`: per aligned axis, the larger extent.
pub open spec fn broadcast_result(a: Seq<usize>, b: Seq<usize>) -> Seq<usize> {
    Seq::new(
        max_rank(a, b) as nat,
        |i: int|
            {
                let da = padded_dim(a, max_rank(a, b), i);
                let db = padded_dim(b, max_rank(a, b), i);
                if da >= db {
                    da
                } else {
                    db
                }
            },
    )
}

/// Index into an operand of shape `s` that the output index `out` reads under
/// broadcasting: trailing axes aligned, axes of extent 1 pinned to 0.
pub open spec fn broadcast_index(s: Seq<usize>, out: Seq<usize>) -> Seq<usize> {
    Seq::new(
        s.len(),
        |a: int|
            if s[a] == 1 {
                0usize
            } else {
                out[out.len() - s.len() + a]
            },
    )
}

/// A positive product has positive factors, from axis `a` on.
pub proof fn lemma_suffix_positive(s: Seq<usize>, a: int)
    requires
        0 <= a,
        suffix_prod(s, a) > 0,
    ensures
        forall|b: int| a <= b < s.len() ==> #[trigger] s[b] > 0,
        forall|b: int| a <= b <= s.len() ==> #[trigger] suffix_prod(s, b) > 0,
    decreases s.len() - a,
{
    if a < s.len() {
        let d = s[a] as int;
        let p = suffix_prod(s, a + 1) as int;
        assert(d * p > 0);
        assert(d > 0 && p > 0) by (nonlinear_arith)
            requires
                d * p > 0,
                d >= 0,
                p >= 0,
        ;
        lemma_suffix_positive(s, a + 1);
    }
}

/// With every extent at least 1, the products only grow towards the outer axes.
pub proof fn lemma_suffix_monotone(s: Seq<usize>, a: int, b: int)
    requires
        0 <= a <= b,
        forall|i: int| 0 <= i < s.len() ==> #[trigger] s[i] >= 1,
    ensures
        suffix_prod(s, b) <= suffix_prod(s, a),
    decreases b - a,
{
    if a < b {
        lemma_suffix_monotone(s, a + 1, b);
        if a < s.len() {
            lemma_mul_inequality(1, s[a] as int, suffix_prod(s, a + 1) as int);
        }
    }
}

/// A zero extent on any axis at or after `a` makes the product zero.
pub proof fn lemma_suffix_zero(s: Seq<usize>, a: int, z: int)
    requires
        0 <= a <= z < s.len(),
        s[z] == 0,
    ensures
        suffix_prod(s, a) == 0,
    decreases z - a,
{
    let p = suffix_prod(s, a + 1) as int;
    let d = s[a] as int;
    if a < z {
        lemma_suffix_zero(s, a + 1, z);
        assert(d * p == 0) by (nonlinear_arith)
            requires
                p == 0,
        ;
    } else {
        assert(d * p == 0) by (nonlinear_arith)
            requires
                d == 0,
        ;
    }
}

/// Row-major strides of shape `shape`.
pub fn c_strides(shape: &[usize]) -> (r: Vec<isize>)
    requires
        strides_fit(shape@),
    ensures
        r@ == row_major_strides(shape@),
{
    let n = shape.len();
    let mut strides: Vec<isize> = Vec::new();
    let mut i: usize = 0;
    while i < n
        invariant
            i <= n,
            strides@.len() == i,
        decreases n - i,
    {
        strides.push(0);
        i += 1;
    }
    let mut st: usize = 1;
    let mut axis = n;
    while axis > 0
        invariant
            axis <= n,
            n == shape@.len(),
            strides@.len() == n,
            strides_fit(shape@),
            st as nat == suffix_prod(shape@, axis as int),
            forall|a: int| axis <= a < n ==> strides@[a] == suffix_prod(shape@, a + 1) as isize,
        decreases axis,
    {
        axis -= 1;
        assert(st <= isize::MAX) by {
            assert(suffix_prod(shape@, axis + 1) <= isize::MAX);
        }
        strides.set(axis, st as isize);
        assert(suffix_prod(shape@, axis as int) <= isize::MAX);
        st = shape[axis] * st;
    }
    assert(strides@ =~= row_major_strides(shape@));
    strides
}

/// Row-major multi-index of element `linear` of an array of shape `shape`.
pub fn unravel_index(linear: usize, shape: &[usize]) -> (r: Vec<usize>)
    requires
        linear < shape_size(shape@),
    ensures
        r@ == unravel(linear as int, shape@),
{
    let n = shape.len();
    proof {
        lemma_suffix_positive(shape@, 0);
    }
    let mut idx: Vec<usize> = Vec::new();
    let mut i: usize = 0;
    while i < n
        invariant
            i <= n,
            idx@.len() == i,
        decreases n - i,
    {
        idx.push(0);
        i += 1;
    }
    let mut rest: usize = linear;
    let mut axis = n;
    while axis > 0
        invariant
            axis <= n,
            n == shape@.len(),
            idx@.len() == n,
            forall|b: int| 0 <= b < n ==> #[trigger] shape@[b] > 0,
            forall|b: int| 0 <= b <= n ==> #[trigger] suffix_prod(shape@, b) > 0,
            suffix_prod(shape@, n as int) > 0,
            rest as int == (linear as int) / (suffix_prod(shape@, axis as int) as int),
            forall|a: int|
                axis <= a < n ==> idx@[a] == #[trigger] unravel(linear as int, shape@)[a],
        decreases axis,
    {
        axis -= 1;
        let dim = shape[axis];
        assert(shape@[axis as int] > 0);
        let ghost p = suffix_prod(shape@, axis + 1) as int;
        assert(p > 0);
        idx.set(axis, rest % dim);
        proof {
            lemma_div_denominator(linear as int, p, dim as int);
            lemma_mul_is_commutative(p, dim as int);
        }
        rest = rest / dim;
    }
    assert(idx@ =~= unravel(linear as int, shape@));
    idx
}

/// The broadcast shape of `a` and `b`, or `None` when they do not broadcast.
pub fn broadcast_shape(a: &[usize], b: &[usize]) -> (r: Option<Vec<usize>>)
    ensures
        r is Some <==> broadcast_compatible(a@, b@),
        r matches Some(v) ==> v@ == broadcast_result(a@, b@),
{
    let na = a.len();
    let nb = b.len();
    let nd = if na >= nb {
        na
    } else {
        nb
    };
    let mut out: Vec<usize> = Vec::new();
    let mut i: usize = 0;
    while i < nd
        invariant
            i <= nd,
            nd as int == max_rank(a@, b@),
            na == a@.len(),
            nb == b@.len(),
            out@.len() == i,
            forall|j: int| 0 <= j < i ==> out@[j] == #[trigger] broadcast_result(a@, b@)[j],
            forall|j: int|
                0 <= j < i ==> {
                    let da = #[trigger] padded_dim(a@, nd as int, j);
                    let db = padded_dim(b@, nd as int, j);
                    da == db || da == 1 || db == 1
                },
        decreases nd - i,
    {
        let da = if i < nd - na {
            1
        } else {
            a[i - (nd - na)]
        };
        let db = if i < nd - nb {
            1
        } else {
            b[i - (nd - nb)]
        };
        assert(da == padded_dim(a@, nd as int, i as int));
        assert(db == padded_dim(b@, nd as int, i as int));
        if da == db || da == 1 || db == 1 {
            out.push(if da >= db {
                da
            } else {
                db
            });
        } else {
            return None;
        }
        i += 1;
    }
    assert(out@ =~= broadcast_result(a@, b@));
    Some(out)
}

} // verus!
