//! The strided n-dimensional array: factories, indexing, views, reshape,
//! broadcasting elementwise arithmetic, reductions and matrix product.
use vstd::prelude::*;
use vstd::arithmetic::div_mod::*;
use vstd::std_specs::convert::FromSpec;
use vstd::std_specs::ops::{AddSpec, DivSpec, MulSpec, SubSpec};
use crate::shape::{
    max_rank, padded_dim, broadcast_compatible, broadcast_index, broadcast_result, broadcast_shape, c_strides, dot, in_box,
    lemma_suffix_monotone, lemma_suffix_positive, lemma_suffix_zero, row_major_strides, shape_size,
    strides_fit, suffix_prod, unravel, unravel_index,
};

verus! {

/// A strided view over a flat element buffer. `shape` and `strides` have one
/// entry per axis; element `idx` lives at `offset + sum(idx[a] * strides[a])`.
#[derive(Clone, Debug, PartialEq)]
pub struct NdArray<T> {
    data: Vec<T>,
    shape: Vec<usize>,
    strides: Vec<isize>,
    offset: isize,
}

/// The address computation `offset + dot(idx, st, k)` stays within `isize`
/// after every axis.
pub open spec fn partial_addrs_fit(offset: isize, idx: Seq<usize>, st: Seq<isize>) -> bool {
    forall|k: int|
        1 <= k <= idx.len() ==> isize::MIN <= #[trigger] (offset + dot(idx, st, k)) <= isize::MAX
}

/// Each term of `dot` is non-negative when the strides are.
pub proof fn lemma_dot_nonneg(idx: Seq<usize>, st: Seq<isize>, k: int)
    requires
        0 <= k <= idx.len() <= st.len(),
        forall|a: int| 0 <= a < st.len() ==> #[trigger] st[a] >= 0,
    ensures
        0 <= dot(idx, st, k),
    decreases k,
{
    if k > 0 {
        lemma_dot_nonneg(idx, st, k - 1);
        let x = idx[k - 1] as int;
        let y = st[k - 1] as int;
        assert(x * y >= 0) by (nonlinear_arith)
            requires
                x >= 0,
                y >= 0,
        ;
    }
}

/// Under row-major strides, the axes from `j` on contribute less than the
/// product of their extents.
pub proof fn lemma_tail_bound(idx: Seq<usize>, s: Seq<usize>, j: int)
    requires
        0 <= j <= s.len(),
        in_box(idx, s),
        strides_fit(s),
    ensures
        0 <= dot(idx, row_major_strides(s), s.len() as int) - dot(idx, row_major_strides(s), j)
            <= suffix_prod(s, j) - 1,
    decreases s.len() - j,
{
    let st = row_major_strides(s);
    let n = s.len() as int;
    if j < n {
        lemma_tail_bound(idx, s, j + 1);
        let p = suffix_prod(s, j + 1) as int;
        assert(p <= isize::MAX);
        assert(st[j] as int == p);
        let x = idx[j] as int;
        let d = s[j] as int;
        assert(x < d);
        assert(0 <= x * p <= (d - 1) * p) by (nonlinear_arith)
            requires
                0 <= x < d,
                p >= 0,
        ;
        assert((d - 1) * p + p == d * p) by (nonlinear_arith);
        assert(suffix_prod(s, j) == d * p);
    }
}

/// Under row-major strides, the axes from `j` on of the `k`-th multi-index
/// contribute exactly `k % suffix_prod(s, j)`.
pub proof fn lemma_unravel_tail(k: int, s: Seq<usize>, j: int)
    requires
        0 <= j <= s.len(),
        0 <= k < shape_size(s),
        strides_fit(s),
    ensures
        dot(unravel(k, s), row_major_strides(s), s.len() as int) - dot(
            unravel(k, s),
            row_major_strides(s),
            j,
        ) == k % (suffix_prod(s, j) as int),
    decreases s.len() - j,
{
    let st = row_major_strides(s);
    let n = s.len() as int;
    let idx = unravel(k, s);
    lemma_suffix_positive(s, 0);
    if j < n {
        lemma_unravel_tail(k, s, j + 1);
        let p = suffix_prod(s, j + 1) as int;
        let d = s[j] as int;
        assert(p > 0 && d > 0);
        assert(st[j] as int == p);
        lemma_mod_pos_bound(k / p, d);
        assert(idx[j] as int == (k / p) % d);
        lemma_mod_breakdown(k, p, d);
        assert(suffix_prod(s, j) == d * p);
        assert(p * d == d * p) by (nonlinear_arith);
        assert(idx[j] as int * st[j] as int == p * ((k / p) % d)) by (nonlinear_arith)
            requires
                idx[j] as int == (k / p) % d,
                st[j] as int == p,
        ;
    } else {
        assert(suffix_prod(s, n) == 1);
        assert(k % 1 == 0);
    }
}

/// The `k`-th row-major multi-index lies in the box of the shape.
pub proof fn lemma_unravel_in_box(k: int, s: Seq<usize>)
    requires
        0 <= k < shape_size(s),
    ensures
        in_box(unravel(k, s), s),
{
    lemma_suffix_positive(s, 0);
    assert forall|a: int| 0 <= a < s.len() implies #[trigger] unravel(k, s)[a] < s[a] by {
        let p = suffix_prod(s, a + 1) as int;
        lemma_div_pos_is_pos(k, p);
        lemma_mod_pos_bound(k / p, s[a] as int);
    }
}

/// `st` holds, per axis, the product of the extents inside that axis.
pub open spec fn is_row_major(st: Seq<isize>, s: Seq<usize>) -> bool {
    &&& st.len() == s.len()
    &&& forall|a: int| 0 <= a < s.len() ==> #[trigger] st[a] as int == suffix_prod(s, a + 1)
}

/// Element count of `shape`, or `None` when it exceeds `usize`.
pub fn checked_size(shape: &[usize]) -> (r: Option<usize>)
    ensures
        r == (if shape_size(shape@) <= usize::MAX {
            Some(shape_size(shape@) as usize)
        } else {
            None::<usize>
        }),
{
    let n = shape.len();
    let mut z: usize = 0;
    while z < n
        invariant
            z <= n,
            n == shape@.len(),
            forall|i: int| 0 <= i < z ==> #[trigger] shape@[i] >= 1,
        decreases n - z,
    {
        if shape[z] == 0 {
            proof {
                lemma_suffix_zero(shape@, 0, z as int);
            }
            return Some(0);
        }
        z += 1;
    }
    let mut p: usize = 1;
    let mut axis = n;
    while axis > 0
        invariant
            axis <= n,
            n == shape@.len(),
            forall|i: int| 0 <= i < n ==> #[trigger] shape@[i] >= 1,
            p as nat == suffix_prod(shape@, axis as int),
        decreases axis,
    {
        axis -= 1;
        match shape[axis].checked_mul(p) {
            Some(q) => {
                p = q;
            },
            None => {
                proof {
                    lemma_suffix_monotone(shape@, 0, axis as int);
                }
                return None;
            },
        }
    }
    Some(p)
}

/// Copies the elements of `v` into a new vector.
fn copy_slice<T: Copy>(v: &[T]) -> (r: Vec<T>)
    ensures
        r@ == v@,
{
    let mut out: Vec<T> = Vec::new();
    let mut i: usize = 0;
    while i < v.len()
        invariant
            i <= v@.len(),
            out@ == v@.subrange(0, i as int),
        decreases v@.len() - i,
    {
        out.push(v[i]);
        i += 1;
    }
    assert(out@ =~= v@);
    out
}

impl<T: Copy> NdArray<T> {
    pub closed spec fn spec_shape(&self) -> Seq<usize> {
        self.shape@
    }

    pub closed spec fn spec_strides(&self) -> Seq<isize> {
        self.strides@
    }

    pub closed spec fn spec_offset(&self) -> isize {
        self.offset
    }

    pub closed spec fn spec_data(&self) -> Seq<T> {
        self.data@
    }

    /// One stride per axis, and an element count that fits `usize`.
    pub open spec fn wf(&self) -> bool {
        &&& self.spec_strides().len() == self.spec_shape().len()
        &&& shape_size(self.spec_shape()) <= usize::MAX
    }

    /// Flat position that multi-index `idx` addresses.
    pub open spec fn addr(&self, idx: Seq<usize>) -> int {
        self.spec_offset() + dot(idx, self.spec_strides(), idx.len() as int)
    }

    /// `idx` is in the shape's box and addresses a non-negative position
    /// computable in `isize`.
    pub open spec fn addr_fits(&self, idx: Seq<usize>) -> bool {
        &&& in_box(idx, self.spec_shape())
        &&& partial_addrs_fit(self.spec_offset(), idx, self.spec_strides())
        &&& self.addr(idx) >= 0
    }

    /// `idx` addresses an element of the buffer.
    pub open spec fn resolves(&self, idx: Seq<usize>) -> bool {
        self.addr_fits(idx) && self.addr(idx) < self.spec_data().len()
    }

    pub open spec fn elem_at(&self, idx: Seq<usize>) -> T {
        self.spec_data()[self.addr(idx)]
    }

    /// Every multi-index in the box addresses an element of the buffer.
    pub open spec fn all_addressable(&self) -> bool {
        forall|idx: Seq<usize>| #[trigger] in_box(idx, self.spec_shape()) ==> self.resolves(idx)
    }

    /// Element count.
    pub open spec fn size(&self) -> nat {
        shape_size(self.spec_shape())
    }

    /// The logical elements in row-major order.
    pub open spec fn logical(&self) -> Seq<T> {
        Seq::new(self.size(), |k: int| self.elem_at(unravel(k, self.spec_shape())))
    }

    /// The strides are the canonical row-major strides of the shape.
    pub open spec fn spec_is_contiguous(&self) -> bool {
        is_row_major(self.spec_strides(), self.spec_shape())
    }

    /// Freshly laid out: row-major strides, no offset, a buffer holding
    /// exactly the elements.
    pub open spec fn is_fresh(&self) -> bool {
        &&& self.wf()
        &&& self.spec_is_contiguous()
        &&& self.spec_offset() == 0
        &&& strides_fit(self.spec_shape())
        &&& self.spec_data().len() == self.size()
    }

    /// A fresh array addresses every index of its box, and its logical
    /// elements are its buffer in order.
    pub proof fn lemma_fresh(&self)
        requires
            self.is_fresh(),
        ensures
            self.all_addressable(),
            self.logical() == self.spec_data(),
    {
        let s = self.spec_shape();
        let st = self.spec_strides();
        let n = s.len() as int;
        assert(st =~= row_major_strides(s)) by {
            assert forall|a: int| 0 <= a < n implies st[a] == #[trigger] row_major_strides(s)[a] by {
                assert(suffix_prod(s, a + 1) <= isize::MAX);
            }
        }
        assert forall|a: int| 0 <= a < st.len() implies #[trigger] st[a] >= 0 by {
            assert(suffix_prod(s, a + 1) <= isize::MAX);
        }
        assert forall|idx: Seq<usize>| #[trigger] in_box(idx, s) implies self.resolves(idx) by {
            lemma_tail_bound(idx, s, 0);
            lemma_dot_nonneg(idx, st, n);
            assert(suffix_prod(s, 0) <= isize::MAX);
            assert forall|k: int| 1 <= k <= idx.len() implies isize::MIN <= #[trigger] (
            self.spec_offset() + dot(idx, st, k)) <= isize::MAX by {
                lemma_tail_bound(idx, s, k);
                lemma_dot_nonneg(idx, st, k);
            }
        }
        assert forall|k: int| 0 <= k < self.size() implies #[trigger] self.logical()[k]
            == self.spec_data()[k] by {
            lemma_unravel_tail(k, s, 0);
            lemma_small_mod(k as nat, suffix_prod(s, 0));
            lemma_unravel_in_box(k, s);
        }
        assert(self.logical() =~= self.spec_data());
    }
}

impl<T: Copy> NdArray<T> {
    /// Wraps `data` as a fresh row-major array of shape `shape`.
    fn from_data_shape(data: Vec<T>, shape: &[usize]) -> (r: Self)
        requires
            strides_fit(shape@),
            data@.len() == shape_size(shape@),
        ensures
            r.is_fresh(),
            r.spec_shape() == shape@,
            r.spec_strides() == row_major_strides(shape@),
            r.spec_data() == data@,
            r.all_addressable(),
            r.logical() == data@,
    {
        let strides = c_strides(shape);
        let r = Self { data, shape: copy_slice(shape), strides, offset: 0 };
        proof {
            assert(suffix_prod(shape@, 0) <= isize::MAX);
            r.lemma_fresh();
        }
        r
    }

    pub fn shape(&self) -> (r: &[usize])
        ensures
            r@ == self.spec_shape(),
    {
        self.shape.as_slice()
    }

    pub fn strides(&self) -> (r: &[isize])
        ensures
            r@ == self.spec_strides(),
    {
        self.strides.as_slice()
    }

    pub fn offset(&self) -> (r: isize)
        ensures
            r == self.spec_offset(),
    {
        self.offset
    }

    /// Number of logical elements.
    pub fn len(&self) -> (r: usize)
        requires
            self.wf(),
        ensures
            r == self.size(),
    {
        match checked_size(self.shape.as_slice()) {
            Some(n) => n,
            None => 0,
        }
    }

    pub fn is_empty(&self) -> (r: bool)
        requires
            self.wf(),
        ensures
            r == (self.size() == 0),
    {
        self.len() == 0
    }

    /// The strides are the canonical row-major strides of the shape.
    pub fn is_contiguous(&self) -> (r: bool)
        requires
            self.wf(),
        ensures
            r == self.spec_is_contiguous(),
    {
        let n = self.shape.len();
        let mut expected: u128 = 1;
        let mut axis = n;
        while axis > 0
            invariant
                axis <= n,
                n == self.shape@.len() == self.strides@.len(),
                expected as int == suffix_prod(self.shape@, axis as int),
                axis > 0 ==> expected <= isize::MAX,
                forall|a: int|
                    axis <= a < n ==> #[trigger] self.strides@[a] as int == suffix_prod(
                        self.shape@,
                        a + 1,
                    ),
            decreases axis,
        {
            axis -= 1;
            if self.strides[axis] as i128 != expected as i128 {
                return false;
            }
            let d = self.shape[axis] as u128;
            assert(expected * d <= u128::MAX) by (nonlinear_arith)
                requires
                    expected <= isize::MAX,
                    d <= usize::MAX,
            ;
            let next = expected * d;
            assert(suffix_prod(self.shape@, axis as int) == next) by {
                assert(d * expected == expected * d) by (nonlinear_arith);
            }
            if axis > 0 && next > isize::MAX as u128 {
                proof {
                    assert(self.strides@[axis - 1] <= isize::MAX);
                }
                return false;
            }
            expected = next;
        }
        true
    }

    /// Flat buffer position of `idx`, when it lies in the box and its
    /// address is a non-negative `isize`.
    fn linear_index(&self, idx: &[usize]) -> (r: Option<usize>)
        requires
            self.wf(),
        ensures
            r == (if self.addr_fits(idx@) {
                Some(self.addr(idx@) as usize)
            } else {
                None::<usize>
            }),
    {
        if idx.len() != self.shape.len() {
            return None;
        }
        let n = idx.len();
        let mut li: isize = self.offset;
        let mut a: usize = 0;
        while a < n
            invariant
                a <= n,
                n == idx@.len() == self.shape@.len() == self.strides@.len(),
                li as int == self.offset + dot(idx@, self.strides@, a as int),
                forall|j: int| 0 <= j < a ==> #[trigger] idx@[j] < self.shape@[j],
                forall|k: int|
                    1 <= k <= a ==> isize::MIN <= #[trigger] (self.offset + dot(
                        idx@,
                        self.strides@,
                        k,
                    )) <= isize::MAX,
            decreases n - a,
        {
            let i = idx[a];
            if i >= self.shape[a] {
                assert(idx@[a as int] >= self.shape@[a as int]);
                return None;
            }
            let st = self.strides[a];
            let x = i as i128;
            let y = st as i128;
            assert(-0x7fff_ffff_ffff_ffff_8000_0000_0000_0000 <= x * y <= 0x7fff_ffff_ffff_fffe_8000_0000_0000_0001) by (nonlinear_arith)
                requires
                    0 <= x <= 0xffff_ffff_ffff_ffff,
                    -0x8000_0000_0000_0000 <= y <= 0x7fff_ffff_ffff_ffff,
            ;
            let next: i128 = li as i128 + x * y;
            assert(self.offset + dot(idx@, self.strides@, a + 1) == next);
            if next < isize::MIN as i128 || next > isize::MAX as i128 {
                return None;
            }
            li = next as isize;
            a += 1;
        }
        if li < 0 {
            return None;
        }
        Some(li as usize)
    }

    /// The element at `idx`, or `None` when `idx` does not address an
    /// element of the buffer.
    pub fn get(&self, idx: &[usize]) -> (r: Option<T>)
        requires
            self.wf(),
        ensures
            r == (if self.resolves(idx@) {
                Some(self.elem_at(idx@))
            } else {
                None::<T>
            }),
    {
        match self.linear_index(idx) {
            Some(li) => if li < self.data.len() {
                Some(self.data[li])
            } else {
                None
            },
            None => None,
        }
    }

    /// Writes `value` at `idx`; returns whether `idx` addressed an element.
    pub fn set(&mut self, idx: &[usize], value: T) -> (r: bool)
        requires
            old(self).wf(),
        ensures
            set_post(*old(self), *final(self), idx@, value, r),
    {
        match self.linear_index(idx) {
            Some(li) => if li < self.data.len() {
                self.data.set(li, value);
                true
            } else {
                false
            },
            None => false,
        }
    }

    /// An array over the same elements with its own geometry; the new offset
    /// is relative to this array's offset. Nothing is checked until indexing.
    pub fn view(&self, shape: &[usize], strides: &[isize], offset: isize) -> (r: Self)
        requires
            shape@.len() == strides@.len(),
            isize::MIN <= self.spec_offset() + offset <= isize::MAX,
            shape_size(shape@) <= usize::MAX,
        ensures
            r.wf(),
            r.spec_data() == self.spec_data(),
            r.spec_shape() == shape@,
            r.spec_strides() == strides@,
            r.spec_offset() == self.spec_offset() + offset,
    {
        Self {
            data: copy_slice(self.data.as_slice()),
            shape: copy_slice(shape),
            strides: copy_slice(strides),
            offset: self.offset + offset,
        }
    }
}

/// A one-axis shape fits exactly when its extent does.
proof fn lemma_single_axis(s: Seq<usize>)
    requires
        s.len() == 1,
        s[0] <= isize::MAX,
    ensures
        shape_size(s) == s[0],
        strides_fit(s),
{
    assert(suffix_prod(s, 1) == 1);
    let d = s[0] as nat;
    assert(suffix_prod(s, 0) == d * suffix_prod(s, 1));
    assert(d * 1 == d) by (nonlinear_arith);
}

/// `n` copies of `v`.
fn filled<T: Copy>(v: T, n: usize) -> (r: Vec<T>)
    ensures
        r@ == Seq::new(n as nat, |i: int| v),
{
    let mut out: Vec<T> = Vec::new();
    let mut i: usize = 0;
    while i < n
        invariant
            i <= n,
            out@ == Seq::new(i as nat, |j: int| v),
        decreases n - i,
    {
        out.push(v);
        i += 1;
        assert(out@ =~= Seq::new(i as nat, |j: int| v));
    }
    out
}

/// Value of the `i`-th element of `arange`: zero plus `i` ones.
pub open spec fn count_value<T: Copy + From<u8> + core::ops::Add<Output = T>>(i: nat) -> T
    decreases i,
{
    if i == 0 {
        T::from_spec(0u8)
    } else {
        count_value::<T>((i - 1) as nat).add_spec(T::from_spec(1u8))
    }
}

impl<T: Copy> NdArray<T> {
    /// A fresh array of shape `shape` filled with zeros.
    pub fn zeros(shape: &[usize]) -> (r: Self)
        where
            T: From<u8>,
        requires
            strides_fit(shape@),
            T::obeys_from_spec(),
        ensures
            r.is_fresh(),
            r.all_addressable(),
            r.spec_shape() == shape@,
            r.spec_strides() == row_major_strides(shape@),
            r.spec_offset() == 0,
            r.spec_data() == Seq::new(shape_size(shape@), |i: int| T::from_spec(0u8)),
            r.logical() == r.spec_data(),
    {
        proof {
            assert(suffix_prod(shape@, 0) <= isize::MAX);
        }
        let n = match checked_size(shape) {
            Some(n) => n,
            None => 0,
        };
        let data = filled(T::from(0u8), n);
        Self::from_data_shape(data, shape)
    }

    /// A fresh array of shape `shape` filled with ones.
    pub fn ones(shape: &[usize]) -> (r: Self)
        where
            T: From<u8>,
        requires
            strides_fit(shape@),
            T::obeys_from_spec(),
        ensures
            r.is_fresh(),
            r.all_addressable(),
            r.spec_shape() == shape@,
            r.spec_strides() == row_major_strides(shape@),
            r.spec_offset() == 0,
            r.spec_data() == Seq::new(shape_size(shape@), |i: int| T::from_spec(1u8)),
            r.logical() == r.spec_data(),
    {
        proof {
            assert(suffix_prod(shape@, 0) <= isize::MAX);
        }
        let n = match checked_size(shape) {
            Some(n) => n,
            None => 0,
        };
        let data = filled(T::from(1u8), n);
        Self::from_data_shape(data, shape)
    }

    /// The 1-D array `0, 1, ..., n - 1`.
    pub fn arange(n: usize) -> (r: Self)
        where
            T: From<u8> + core::ops::Add<Output = T>,
        requires
            n <= isize::MAX,
            T::obeys_from_spec(),
            T::obeys_add_spec(),
            forall|i: nat|
                i + 1 < n ==> (#[trigger] count_value::<T>(i)).add_req(T::from_spec(1u8)),
        ensures
            r.is_fresh(),
            r.all_addressable(),
            r.spec_shape() == seq![n],
            r.spec_data() == Seq::new(n as nat, |i: int| count_value::<T>(i as nat)),
            r.logical() == r.spec_data(),
    {
        let one = T::from(1u8);
        let mut data: Vec<T> = Vec::new();
        let mut x = T::from(0u8);
        let mut i: usize = 0;
        while i < n
            invariant
                i <= n,
                T::obeys_add_spec(),
                one == T::from_spec(1u8),
                i < n ==> x == count_value::<T>(i as nat),
                forall|j: nat|
                    j + 1 < n ==> (#[trigger] count_value::<T>(j)).add_req(T::from_spec(1u8)),
                data@ == Seq::new(i as nat, |j: int| count_value::<T>(j as nat)),
            decreases n - i,
        {
            data.push(x);
            if i + 1 < n {
                x = x + one;
            }
            i += 1;
            assert(data@ =~= Seq::new(i as nat, |j: int| count_value::<T>(j as nat)));
        }
        let shape: [usize; 1] = [n];
        proof {
            assert(shape@ =~= seq![n]);
            lemma_single_axis(shape@);
        }
        Self::from_data_shape(data, shape.as_slice())
    }

    /// An array holding `data`, of shape `shape`, or 1-D when no shape is
    /// given. A given shape must hold exactly `data.len()` elements.
    pub fn from_list(data: Vec<T>, shape: Option<&[usize]>) -> (r: Self)
        requires
            match shape {
                Some(s) => shape_size(s@) == data@.len() && strides_fit(s@),
                None => data@.len() <= isize::MAX,
            },
        ensures
            r.is_fresh(),
            r.all_addressable(),
            r.spec_shape() == (match shape {
                Some(s) => s@,
                None => seq![data@.len() as usize],
            }),
            r.spec_data() == data@,
            r.logical() == data@,
    {
        match shape {
            None => {
                let n = data.len();
                let s: [usize; 1] = [n];
                proof {
                    assert(s@ =~= seq![n]);
                    lemma_single_axis(s@);
                }
                Self::from_data_shape(data, s.as_slice())
            },
            Some(s) => Self::from_data_shape(data, s),
        }
    }

    /// The logical elements in row-major order, whatever the strides and
    /// offset.
    pub fn to_vec(&self) -> (r: Vec<T>)
        requires
            self.wf(),
            self.all_addressable(),
        ensures
            r@ == self.logical(),
    {
        let n = self.len();
        let mut out: Vec<T> = Vec::new();
        let mut k: usize = 0;
        while k < n
            invariant
                k <= n,
                n == self.size(),
                self.wf(),
                self.all_addressable(),
                out@ == self.logical().subrange(0, k as int),
            decreases n - k,
        {
            let mi = unravel_index(k, self.shape.as_slice());
            proof {
                lemma_unravel_in_box(k as int, self.shape@);
                assert(in_box(mi@, self.spec_shape()));
            }
            out.push(self.get(mi.as_slice()).unwrap());
            k += 1;
            assert(out@ =~= self.logical().subrange(0, k as int));
        }
        assert(out@ =~= self.logical());
        out
    }

    /// A fresh array of shape `new_shape` holding this array's elements in
    /// row-major order; `None` unless this array is contiguous and
    /// `new_shape` holds the same number of elements.
    pub fn reshape(&self, new_shape: &[usize]) -> (r: Option<Self>)
        requires
            self.wf(),
            self.spec_is_contiguous() && shape_size(new_shape@) == self.size() ==> self.all_addressable()
                && strides_fit(new_shape@),
        ensures
            r is Some <==> self.spec_is_contiguous() && shape_size(new_shape@) == self.size(),
            r matches Some(b) ==> {
                &&& b.is_fresh()
                &&& b.all_addressable()
                &&& b.spec_shape() == new_shape@
                &&& b.spec_data() == self.logical()
                &&& b.logical() == self.logical()
            },
    {
        if !self.is_contiguous() {
            return None;
        }
        match checked_size(new_shape) {
            Some(m) => if m == self.len() {
                Some(Self::from_data_shape(self.to_vec(), new_shape))
            } else {
                None
            },
            None => None,
        }
    }
}

impl<T: Copy> NdArray<T> {
    /// The element of `self` that position `k` of a broadcast result of
    /// shape `out` reads.
    pub open spec fn bval(&self, out: Seq<usize>, k: int) -> T {
        self.elem_at(broadcast_index(self.spec_shape(), unravel(k, out)))
    }

    /// Every position of a broadcast result of shape `out` reads an element
    /// of `self` that the buffer holds.
    pub open spec fn reads_ok(&self, out: Seq<usize>) -> bool {
        forall|k: int|
            0 <= k < shape_size(out) ==> self.resolves(
                broadcast_index(self.spec_shape(), #[trigger] unravel(k, out)),
            )
    }

    /// Preconditions shared by the elementwise operations.
    pub open spec fn elementwise_ok(&self, other: &Self) -> bool {
        &&& self.wf()
        &&& other.wf()
        &&& broadcast_compatible(self.spec_shape(), other.spec_shape())
        &&& strides_fit(broadcast_result(self.spec_shape(), other.spec_shape()))
        &&& self.reads_ok(broadcast_result(self.spec_shape(), other.spec_shape()))
        &&& other.reads_ok(broadcast_result(self.spec_shape(), other.spec_shape()))
    }

    /// The element of `self` that output multi-index `out_idx` reads under
    /// broadcasting.
    fn get_broadcasted(&self, out_idx: &[usize]) -> (r: T)
        requires
            self.wf(),
            out_idx@.len() >= self.spec_shape().len(),
            self.resolves(broadcast_index(self.spec_shape(), out_idx@)),
        ensures
            r == self.elem_at(broadcast_index(self.spec_shape(), out_idx@)),
    {
        let out_nd = out_idx.len();
        let in_nd = self.shape.len();
        let mut in_idx: Vec<usize> = Vec::new();
        let mut a: usize = 0;
        while a < in_nd
            invariant
                a <= in_nd,
                in_nd == self.shape@.len(),
                out_nd == out_idx@.len() >= in_nd,
                in_idx@ == broadcast_index(self.shape@, out_idx@).subrange(0, a as int),
            decreases in_nd - a,
        {
            let v = if self.shape[a] == 1 {
                0
            } else {
                out_idx[out_nd - in_nd + a]
            };
            in_idx.push(v);
            a += 1;
            assert(in_idx@ =~= broadcast_index(self.shape@, out_idx@).subrange(0, a as int));
        }
        assert(in_idx@ =~= broadcast_index(self.shape@, out_idx@));
        self.get(in_idx.as_slice()).unwrap()
    }

    /// The broadcast shape of the two operands and its element count.
    fn broadcast_with(&self, other: &Self) -> (r: (Vec<usize>, usize))
        requires
            self.elementwise_ok(other),
        ensures
            r.0@ == broadcast_result(self.spec_shape(), other.spec_shape()),
            r.1 == shape_size(r.0@),
    {
        let out_shape = broadcast_shape(self.shape.as_slice(), other.shape.as_slice()).unwrap();
        proof {
            assert(suffix_prod(out_shape@, 0) <= isize::MAX);
        }
        let n = checked_size(out_shape.as_slice()).unwrap();
        (out_shape, n)
    }

    /// Elementwise sum under broadcasting: a fresh array of the broadcast
    /// shape whose element `k` combines the two elements it reads.
    pub fn add(&self, other: &Self) -> (r: Self)
        where
            T: core::ops::Add<Output = T>,
        requires
            self.elementwise_ok(other),
            T::obeys_add_spec(),
            forall|k: int|
                0 <= k < shape_size(broadcast_result(self.spec_shape(), other.spec_shape())) ==> (
                #[trigger] self.bval(
                    broadcast_result(self.spec_shape(), other.spec_shape()),
                    k,
                )).add_req(other.bval(broadcast_result(self.spec_shape(), other.spec_shape()), k)),
        ensures
            r.is_fresh(),
            r.all_addressable(),
            r.spec_shape() == broadcast_result(self.spec_shape(), other.spec_shape()),
            r.logical() == r.spec_data(),
            r.spec_data() == Seq::new(
                shape_size(broadcast_result(self.spec_shape(), other.spec_shape())),
                |k: int|
                    self.bval(broadcast_result(self.spec_shape(), other.spec_shape()), k).add_spec(
                        other.bval(broadcast_result(self.spec_shape(), other.spec_shape()), k),
                    ),
            ),
    {
        let (out_shape, n) = self.broadcast_with(other);
        let ghost out = out_shape@;
        let mut data: Vec<T> = Vec::new();
        let mut k: usize = 0;
        while k < n
            invariant
                k <= n,
                n == shape_size(out),
                out == broadcast_result(self.spec_shape(), other.spec_shape()),
                out_shape@ == out,
                self.elementwise_ok(other),
                T::obeys_add_spec(),
                forall|j: int|
                    0 <= j < shape_size(out) ==> (#[trigger] self.bval(out, j)).add_req(
                        other.bval(out, j),
                    ),
                data@ == Seq::new(k as nat, |j: int| self.bval(out, j).add_spec(other.bval(out, j))),
            decreases n - k,
        {
            let mi = unravel_index(k, out_shape.as_slice());
            proof {
                assert(self.resolves(broadcast_index(self.spec_shape(), unravel(k as int, out))));
                assert(other.resolves(broadcast_index(other.spec_shape(), unravel(k as int, out))));
                assert(self.bval(out, k as int).add_req(other.bval(out, k as int)));
            }
            let a = self.get_broadcasted(mi.as_slice());
            let b = other.get_broadcasted(mi.as_slice());
            data.push(a + b);
            k += 1;
            assert(data@ =~= Seq::new(k as nat, |j: int| self.bval(out, j).add_spec(other.bval(out, j))));
        }
        Self::from_data_shape(data, out_shape.as_slice())
    }

    /// Elementwise difference under broadcasting: a fresh array of the broadcast
    /// shape whose element `k` combines the two elements it reads.
    pub fn sub(&self, other: &Self) -> (r: Self)
        where
            T: core::ops::Sub<Output = T>,
        requires
            self.elementwise_ok(other),
            T::obeys_sub_spec(),
            forall|k: int|
                0 <= k < shape_size(broadcast_result(self.spec_shape(), other.spec_shape())) ==> (
                #[trigger] self.bval(
                    broadcast_result(self.spec_shape(), other.spec_shape()),
                    k,
                )).sub_req(other.bval(broadcast_result(self.spec_shape(), other.spec_shape()), k)),
        ensures
            r.is_fresh(),
            r.all_addressable(),
            r.spec_shape() == broadcast_result(self.spec_shape(), other.spec_shape()),
            r.logical() == r.spec_data(),
            r.spec_data() == Seq::new(
                shape_size(broadcast_result(self.spec_shape(), other.spec_shape())),
                |k: int|
                    self.bval(broadcast_result(self.spec_shape(), other.spec_shape()), k).sub_spec(
                        other.bval(broadcast_result(self.spec_shape(), other.spec_shape()), k),
                    ),
            ),
    {
        let (out_shape, n) = self.broadcast_with(other);
        let ghost out = out_shape@;
        let mut data: Vec<T> = Vec::new();
        let mut k: usize = 0;
        while k < n
            invariant
                k <= n,
                n == shape_size(out),
                out == broadcast_result(self.spec_shape(), other.spec_shape()),
                out_shape@ == out,
                self.elementwise_ok(other),
                T::obeys_sub_spec(),
                forall|j: int|
                    0 <= j < shape_size(out) ==> (#[trigger] self.bval(out, j)).sub_req(
                        other.bval(out, j),
                    ),
                data@ == Seq::new(k as nat, |j: int| self.bval(out, j).sub_spec(other.bval(out, j))),
            decreases n - k,
        {
            let mi = unravel_index(k, out_shape.as_slice());
            proof {
                assert(self.resolves(broadcast_index(self.spec_shape(), unravel(k as int, out))));
                assert(other.resolves(broadcast_index(other.spec_shape(), unravel(k as int, out))));
                assert(self.bval(out, k as int).sub_req(other.bval(out, k as int)));
            }
            let a = self.get_broadcasted(mi.as_slice());
            let b = other.get_broadcasted(mi.as_slice());
            data.push(a - b);
            k += 1;
            assert(data@ =~= Seq::new(k as nat, |j: int| self.bval(out, j).sub_spec(other.bval(out, j))));
        }
        Self::from_data_shape(data, out_shape.as_slice())
    }

    /// Elementwise product under broadcasting: a fresh array of the broadcast
    /// shape whose element `k` combines the two elements it reads.
    pub fn mul(&self, other: &Self) -> (r: Self)
        where
            T: core::ops::Mul<Output = T>,
        requires
            self.elementwise_ok(other),
            T::obeys_mul_spec(),
            forall|k: int|
                0 <= k < shape_size(broadcast_result(self.spec_shape(), other.spec_shape())) ==> (
                #[trigger] self.bval(
                    broadcast_result(self.spec_shape(), other.spec_shape()),
                    k,
                )).mul_req(other.bval(broadcast_result(self.spec_shape(), other.spec_shape()), k)),
        ensures
            r.is_fresh(),
            r.all_addressable(),
            r.spec_shape() == broadcast_result(self.spec_shape(), other.spec_shape()),
            r.logical() == r.spec_data(),
            r.spec_data() == Seq::new(
                shape_size(broadcast_result(self.spec_shape(), other.spec_shape())),
                |k: int|
                    self.bval(broadcast_result(self.spec_shape(), other.spec_shape()), k).mul_spec(
                        other.bval(broadcast_result(self.spec_shape(), other.spec_shape()), k),
                    ),
            ),
    {
        let (out_shape, n) = self.broadcast_with(other);
        let ghost out = out_shape@;
        let mut data: Vec<T> = Vec::new();
        let mut k: usize = 0;
        while k < n
            invariant
                k <= n,
                n == shape_size(out),
                out == broadcast_result(self.spec_shape(), other.spec_shape()),
                out_shape@ == out,
                self.elementwise_ok(other),
                T::obeys_mul_spec(),
                forall|j: int|
                    0 <= j < shape_size(out) ==> (#[trigger] self.bval(out, j)).mul_req(
                        other.bval(out, j),
                    ),
                data@ == Seq::new(k as nat, |j: int| self.bval(out, j).mul_spec(other.bval(out, j))),
            decreases n - k,
        {
            let mi = unravel_index(k, out_shape.as_slice());
            proof {
                assert(self.resolves(broadcast_index(self.spec_shape(), unravel(k as int, out))));
                assert(other.resolves(broadcast_index(other.spec_shape(), unravel(k as int, out))));
                assert(self.bval(out, k as int).mul_req(other.bval(out, k as int)));
            }
            let a = self.get_broadcasted(mi.as_slice());
            let b = other.get_broadcasted(mi.as_slice());
            data.push(a * b);
            k += 1;
            assert(data@ =~= Seq::new(k as nat, |j: int| self.bval(out, j).mul_spec(other.bval(out, j))));
        }
        Self::from_data_shape(data, out_shape.as_slice())
    }

    /// Elementwise quotient under broadcasting: a fresh array of the broadcast
    /// shape whose element `k` combines the two elements it reads.
    pub fn div(&self, other: &Self) -> (r: Self)
        where
            T: core::ops::Div<Output = T>,
        requires
            self.elementwise_ok(other),
            T::obeys_div_spec(),
            forall|k: int|
                0 <= k < shape_size(broadcast_result(self.spec_shape(), other.spec_shape())) ==> (
                #[trigger] self.bval(
                    broadcast_result(self.spec_shape(), other.spec_shape()),
                    k,
                )).div_req(other.bval(broadcast_result(self.spec_shape(), other.spec_shape()), k)),
        ensures
            r.is_fresh(),
            r.all_addressable(),
            r.spec_shape() == broadcast_result(self.spec_shape(), other.spec_shape()),
            r.logical() == r.spec_data(),
            r.spec_data() == Seq::new(
                shape_size(broadcast_result(self.spec_shape(), other.spec_shape())),
                |k: int|
                    self.bval(broadcast_result(self.spec_shape(), other.spec_shape()), k).div_spec(
                        other.bval(broadcast_result(self.spec_shape(), other.spec_shape()), k),
                    ),
            ),
    {
        let (out_shape, n) = self.broadcast_with(other);
        let ghost out = out_shape@;
        let mut data: Vec<T> = Vec::new();
        let mut k: usize = 0;
        while k < n
            invariant
                k <= n,
                n == shape_size(out),
                out == broadcast_result(self.spec_shape(), other.spec_shape()),
                out_shape@ == out,
                self.elementwise_ok(other),
                T::obeys_div_spec(),
                forall|j: int|
                    0 <= j < shape_size(out) ==> (#[trigger] self.bval(out, j)).div_req(
                        other.bval(out, j),
                    ),
                data@ == Seq::new(k as nat, |j: int| self.bval(out, j).div_spec(other.bval(out, j))),
            decreases n - k,
        {
            let mi = unravel_index(k, out_shape.as_slice());
            proof {
                assert(self.resolves(broadcast_index(self.spec_shape(), unravel(k as int, out))));
                assert(other.resolves(broadcast_index(other.spec_shape(), unravel(k as int, out))));
                assert(self.bval(out, k as int).div_req(other.bval(out, k as int)));
            }
            let a = self.get_broadcasted(mi.as_slice());
            let b = other.get_broadcasted(mi.as_slice());
            data.push(a / b);
            k += 1;
            assert(data@ =~= Seq::new(k as nat, |j: int| self.bval(out, j).div_spec(other.bval(out, j))));
        }
        Self::from_data_shape(data, out_shape.as_slice())
    }
}

/// Term `t` of entry `(i, j)` of the matrix product `a * b`.
pub open spec fn mm_term<T: Copy + core::ops::Mul<Output = T>>(
    a: NdArray<T>,
    b: NdArray<T>,
    i: int,
    j: int,
    t: int,
) -> T {
    a.elem_at(seq![i as usize, t as usize]).mul_spec(b.elem_at(seq![t as usize, j as usize]))
}

/// Entry `(i, j)` of `a * b` accumulated over the first `t` terms, from zero.
pub open spec fn mm_acc<T: Copy + From<u8> + core::ops::Add<Output = T> + core::ops::Mul<
    Output = T,
>>(a: NdArray<T>, b: NdArray<T>, i: int, j: int, t: int) -> T
    decreases t,
{
    if t <= 0 {
        T::from_spec(0u8)
    } else {
        mm_acc(a, b, i, j, t - 1).add_spec(mm_term(a, b, i, j, t - 1))
    }
}

/// Each multiplication and each accumulation of entry `(i, j)`, term `t`,
/// is defined for the element type.
pub open spec fn mm_step_ok<T: Copy + From<u8> + core::ops::Add<Output = T> + core::ops::Mul<
    Output = T,
>>(a: NdArray<T>, b: NdArray<T>, i: int, j: int, t: int) -> bool {
    &&& a.elem_at(seq![i as usize, t as usize]).mul_req(b.elem_at(seq![t as usize, j as usize]))
    &&& mm_acc(a, b, i, j, t).add_req(mm_term(a, b, i, j, t))
}

impl<T: Copy> NdArray<T> {
    /// Matrix product of two 2-D arrays, `[m, k] x [k, n] -> [m, n]`, each
    /// entry accumulated from zero over `k` terms in order.
    pub fn matmul(&self, other: &Self) -> (r: Self)
        where
            T: From<u8> + core::ops::Add<Output = T> + core::ops::Mul<Output = T>,
        requires
            self.wf(),
            other.wf(),
            self.spec_shape().len() == 2,
            other.spec_shape().len() == 2,
            self.spec_shape()[1] == other.spec_shape()[0],
            self.all_addressable(),
            other.all_addressable(),
            strides_fit(seq![self.spec_shape()[0], other.spec_shape()[1]]),
            T::obeys_from_spec(),
            T::obeys_add_spec(),
            T::obeys_mul_spec(),
            forall|i: int, j: int, t: int|
                0 <= i < self.spec_shape()[0] && 0 <= j < other.spec_shape()[1] && 0 <= t
                    < self.spec_shape()[1] ==> #[trigger] mm_step_ok(*self, *other, i, j, t),
        ensures
            r.is_fresh(),
            r.all_addressable(),
            r.spec_shape() == seq![self.spec_shape()[0], other.spec_shape()[1]],
            r.logical() == r.spec_data(),
            r.spec_data() == Seq::new(
                (self.spec_shape()[0] * other.spec_shape()[1]) as nat,
                |p: int|
                    mm_acc(
                        *self,
                        *other,
                        p / (other.spec_shape()[1] as int),
                        p % (other.spec_shape()[1] as int),
                        self.spec_shape()[1] as int,
                    ),
            ),
    {
        let m = self.shape[0];
        let kk = self.shape[1];
        let n = other.shape[1];
        let out_shape: [usize; 2] = [m, n];
        proof {
            assert(out_shape@ =~= seq![m, n]);
            assert(suffix_prod(out_shape@, 2) == 1);
            assert(suffix_prod(out_shape@, 1) == n * 1);
            assert(suffix_prod(out_shape@, 0) == m * (n * 1));
            assert(m * (n * 1) == m * n) by (nonlinear_arith);
        }
        let mut data: Vec<T> = Vec::new();
        let mut i: usize = 0;
        while i < m
            invariant
                i <= m,
                m == self.shape@[0],
                kk == self.shape@[1] == other.shape@[0],
                n == other.shape@[1],
                m * n <= isize::MAX,
                self.wf(),
                other.wf(),
                self.shape@.len() == 2,
                other.shape@.len() == 2,
                self.all_addressable(),
                other.all_addressable(),
                T::obeys_from_spec(),
                T::obeys_add_spec(),
                T::obeys_mul_spec(),
                forall|i: int, j: int, t: int|
                    0 <= i < m && 0 <= j < n && 0 <= t < kk ==> #[trigger] mm_step_ok(
                        *self,
                        *other,
                        i,
                        j,
                        t,
                    ),
                data@.len() == i * n,
                forall|p: int|
                    0 <= p < data@.len() ==> #[trigger] data@[p] == mm_acc(
                        *self,
                        *other,
                        p / (n as int),
                        p % (n as int),
                        kk as int,
                    ),
            decreases m - i,
        {
            let mut j: usize = 0;
            while j < n
                invariant
                    i < m,
                    j <= n,
                    m == self.shape@[0],
                    kk == self.shape@[1] == other.shape@[0],
                    n == other.shape@[1],
                    m * n <= isize::MAX,
                    self.wf(),
                    other.wf(),
                    self.shape@.len() == 2,
                    other.shape@.len() == 2,
                    self.all_addressable(),
                    other.all_addressable(),
                    T::obeys_from_spec(),
                    T::obeys_add_spec(),
                    T::obeys_mul_spec(),
                    forall|i: int, j: int, t: int|
                        0 <= i < m && 0 <= j < n && 0 <= t < kk ==> #[trigger] mm_step_ok(
                            *self,
                            *other,
                            i,
                            j,
                            t,
                        ),
                    data@.len() == i * n + j,
                    forall|p: int|
                        0 <= p < data@.len() ==> #[trigger] data@[p] == mm_acc(
                            *self,
                            *other,
                            p / (n as int),
                            p % (n as int),
                            kk as int,
                        ),
                decreases n - j,
            {
                let mut acc = T::from(0u8);
                let mut t: usize = 0;
                while t < kk
                    invariant
                        i < m,
                        j < n,
                        t <= kk,
                        m == self.shape@[0],
                        kk == self.shape@[1] == other.shape@[0],
                        n == other.shape@[1],
                        self.wf(),
                        other.wf(),
                        self.shape@.len() == 2,
                        other.shape@.len() == 2,
                        self.all_addressable(),
                        other.all_addressable(),
                        T::obeys_add_spec(),
                        T::obeys_mul_spec(),
                        forall|i: int, j: int, t: int|
                            0 <= i < m && 0 <= j < n && 0 <= t < kk ==> #[trigger] mm_step_ok(
                                *self,
                                *other,
                                i,
                                j,
                                t,
                            ),
                        acc == mm_acc(*self, *other, i as int, j as int, t as int),
                    decreases kk - t,
                {
                    let ia: [usize; 2] = [i, t];
                    let ib: [usize; 2] = [t, j];
                    proof {
                        assert(ia@ =~= seq![i, t]);
                        assert(ib@ =~= seq![t, j]);
                        assert(in_box(ia@, self.spec_shape()));
                        assert(in_box(ib@, other.spec_shape()));
                        assert(mm_step_ok(*self, *other, i as int, j as int, t as int));
                    }
                    let x = self.get(ia.as_slice()).unwrap();
                    let y = other.get(ib.as_slice()).unwrap();
                    acc = acc + x * y;
                    t += 1;
                }
                proof {
                    let p = i * n + j;
                    assert(p < m * n) by (nonlinear_arith)
                        requires
                            i < m,
                            j < n,
                            p == i * n + j,
                    ;
                    lemma_fundamental_div_mod_converse(p as int, n as int, i as int, j as int);
                }
                data.push(acc);
                j += 1;
                assert(data@.len() == i * n + j);
            }
            assert((i + 1) * n == i * n + n) by (nonlinear_arith);
            i += 1;
        }
        assert(data@ =~= Seq::new(
            (m * n) as nat,
            |p: int| mm_acc(*self, *other, p / (n as int), p % (n as int), kk as int),
        ));
        Self::from_data_shape(data, out_shape.as_slice())
    }
}

/// Shape of the result of `sum`: a scalar or all-ones shape for a full
/// reduction; the shape without `axis`, or with `axis` collapsed to 1.
pub open spec fn reduced_shape(s: Seq<usize>, axis: Option<usize>, keepdims: bool) -> Seq<usize> {
    match axis {
        None => if keepdims {
            Seq::new(s.len(), |a: int| 1usize)
        } else {
            Seq::empty()
        },
        Some(ax) => reduced_index(s, ax as int, keepdims, 1),
    }
}

/// `idx` with axis `ax` removed, or set to `fill` when dimensions are kept.
pub open spec fn reduced_index(idx: Seq<usize>, ax: int, keepdims: bool, fill: usize) -> Seq<usize> {
    if keepdims {
        idx.update(ax, fill)
    } else {
        idx.remove(ax)
    }
}

/// Row-major position of `idx` in an array of shape `s`.
pub open spec fn ravel(idx: Seq<usize>, s: Seq<usize>) -> int {
    dot(idx, row_major_strides(s), s.len() as int)
}

/// All-ones shapes, and the empty shape, fit and hold one element.
proof fn lemma_ones_shape(s: Seq<usize>, a: int)
    requires
        0 <= a <= s.len(),
        forall|i: int| 0 <= i < s.len() ==> #[trigger] s[i] == 1,
    ensures
        suffix_prod(s, a) == 1,
    decreases s.len() - a,
{
    if a < s.len() {
        lemma_ones_shape(s, a + 1);
    }
}

/// Reducing an in-box index lands in the box of the reduced shape.
proof fn lemma_reduce_in_box(idx: Seq<usize>, s: Seq<usize>, ax: int, keepdims: bool)
    requires
        in_box(idx, s),
        0 <= ax < s.len(),
    ensures
        in_box(reduced_index(idx, ax, keepdims, 0), reduced_index(s, ax, keepdims, 1)),
{
    let oi = reduced_index(idx, ax, keepdims, 0);
    let os = reduced_index(s, ax, keepdims, 1);
    assert forall|a: int| 0 <= a < os.len() implies #[trigger] oi[a] < os[a] by {
        if !keepdims && a >= ax {
            assert(idx[a + 1] < s[a + 1]);
        } else if !keepdims || a != ax {
            assert(idx[a] < s[a]);
        }
    }
}

/// `idx` with entry `ax` removed or replaced by `fill`.
fn reduce_index(idx: &[usize], ax: usize, keepdims: bool, fill: usize) -> (r: Vec<usize>)
    requires
        ax < idx@.len(),
    ensures
        r@ == reduced_index(idx@, ax as int, keepdims, fill),
{
    let mut out: Vec<usize> = Vec::new();
    let mut a: usize = 0;
    while a < idx.len()
        invariant
            a <= idx@.len(),
            ax < idx@.len(),
            keepdims ==> out@ == idx@.update(ax as int, fill).subrange(0, a as int),
            !keepdims ==> out@ == (if a <= ax {
                idx@.subrange(0, a as int)
            } else {
                idx@.remove(ax as int).subrange(0, a - 1)
            }),
        decreases idx@.len() - a,
    {
        if a == ax {
            if keepdims {
                out.push(fill);
            }
        } else {
            out.push(idx[a]);
        }
        a += 1;
        proof {
            if keepdims {
                assert(out@ =~= idx@.update(ax as int, fill).subrange(0, a as int));
            } else if a <= ax {
                assert(out@ =~= idx@.subrange(0, a as int));
            } else {
                assert(out@ =~= idx@.remove(ax as int).subrange(0, a - 1));
            }
        }
    }
    proof {
        if keepdims {
            assert(out@ =~= idx@.update(ax as int, fill));
        } else {
            assert(out@ =~= idx@.remove(ax as int));
        }
    }
    out
}

/// Sum of the first `m` logical elements of `a`, from zero, in order.
pub open spec fn total_acc<T: Copy + From<u8> + core::ops::Add<Output = T>>(a: NdArray<T>, m: int) -> T
    decreases m,
{
    if m <= 0 {
        T::from_spec(0u8)
    } else {
        total_acc(a, m - 1).add_spec(a.elem_at(unravel(m - 1, a.spec_shape())))
    }
}

/// Output position of a reduction over `ax` that logical element `k` of `a`
/// accumulates into.
pub open spec fn axis_target<T: Copy>(a: NdArray<T>, ax: int, keepdims: bool, k: int) -> int {
    ravel(
        reduced_index(unravel(k, a.spec_shape()), ax, keepdims, 0),
        reduced_index(a.spec_shape(), ax, keepdims, 1),
    )
}

/// Output position `j` of a reduction over `ax`: the sum, from zero and in
/// row-major order, of those of the first `m` logical elements of `a` that
/// lie on it.
pub open spec fn axis_acc<T: Copy + From<u8> + core::ops::Add<Output = T>>(
    a: NdArray<T>,
    ax: int,
    keepdims: bool,
    j: int,
    m: int,
) -> T
    decreases m,
{
    if m <= 0 {
        T::from_spec(0u8)
    } else if axis_target(a, ax, keepdims, m - 1) == j {
        axis_acc(a, ax, keepdims, j, m - 1).add_spec(a.elem_at(unravel(m - 1, a.spec_shape())))
    } else {
        axis_acc(a, ax, keepdims, j, m - 1)
    }
}

/// Every accumulation step of a full `sum` is defined for the element type.
pub open spec fn total_steps_ok<T: Copy + From<u8> + core::ops::Add<Output = T>>(a: NdArray<T>) -> bool {
    forall|m: int|
        0 <= m < a.size() ==> (#[trigger] total_acc(a, m)).add_req(
            a.elem_at(unravel(m, a.spec_shape())),
        )
}

/// Every accumulation step of a `sum` over `ax` is defined for the element
/// type.
pub open spec fn axis_steps_ok<T: Copy + From<u8> + core::ops::Add<Output = T>>(
    a: NdArray<T>,
    ax: int,
    keepdims: bool,
) -> bool {
    forall|m: int|
        0 <= m < a.size() ==> (#[trigger] axis_acc(
            a,
            ax,
            keepdims,
            axis_target(a, ax, keepdims, m),
            m,
        )).add_req(a.elem_at(unravel(m, a.spec_shape())))
}

/// Every accumulation step of `sum` is defined for the element type.
pub open spec fn sum_steps_ok<T: Copy + From<u8> + core::ops::Add<Output = T>>(
    a: NdArray<T>,
    axis: Option<usize>,
    keepdims: bool,
) -> bool {
    match axis {
        None => total_steps_ok(a),
        Some(ax) => axis_steps_ok(a, ax as int, keepdims),
    }
}

impl<T: Copy> NdArray<T> {
    /// Sum of all elements (`axis` = `None`), as a scalar or, with
    /// `keepdims`, an all-ones shape of the same rank; or sum along `axis`,
    /// which is removed or, with `keepdims`, collapsed to extent 1.
    #[verifier::rlimit(50)]
    pub fn sum(&self, axis: Option<usize>, keepdims: bool) -> (r: Self)
        where
            T: From<u8> + core::ops::Add<Output = T>,
        requires
            self.wf(),
            self.all_addressable(),
            T::obeys_from_spec(),
            T::obeys_add_spec(),
            axis matches Some(ax) ==> ax < self.spec_shape().len() && strides_fit(
                reduced_shape(self.spec_shape(), axis, keepdims),
            ),
            sum_steps_ok(*self, axis, keepdims),
        ensures
            r.is_fresh(),
            r.all_addressable(),
            r.logical() == r.spec_data(),
            r.spec_shape() == reduced_shape(self.spec_shape(), axis, keepdims),
            axis is None ==> r.spec_data() == seq![total_acc(*self, self.size() as int)],
            axis matches Some(ax) ==> r.spec_data() == Seq::new(
                shape_size(r.spec_shape()),
                |j: int| axis_acc(*self, ax as int, keepdims, j, self.size() as int),
            ),
    {
        let n = self.len();
        let rank = self.shape.len();
        match axis {
            None => {
                let mut acc = T::from(0u8);
                let mut k: usize = 0;
                while k < n
                    invariant
                        k <= n,
                        n == self.size(),
                        self.wf(),
                        self.all_addressable(),
                        T::obeys_add_spec(),
                        sum_steps_ok(*self, axis, keepdims),
                        axis is None,
                        acc == total_acc(*self, k as int),
                    decreases n - k,
                {
                    let mi = unravel_index(k, self.shape.as_slice());
                    proof {
                        lemma_unravel_in_box(k as int, self.shape@);
                        assert(in_box(mi@, self.spec_shape()));
                        assert(total_acc(*self, k as int).add_req(
                            self.elem_at(unravel(k as int, self.spec_shape())),
                        ));
                    }
                    let v = self.get(mi.as_slice()).unwrap();
                    acc = acc + v;
                    k += 1;
                }
                let out_shape: Vec<usize> = if keepdims {
                    filled(1usize, rank)
                } else {
                    Vec::new()
                };
                proof {
                    lemma_ones_shape(out_shape@, 0);
                    assert forall|a: int| 0 <= a <= out_shape@.len() implies #[trigger] suffix_prod(
                        out_shape@,
                        a,
                    ) <= isize::MAX by {
                        lemma_ones_shape(out_shape@, a);
                    }
                    assert(out_shape@ =~= reduced_shape(self.spec_shape(), axis, keepdims));
                }
                let data: Vec<T> = filled(acc, 1);
                assert(data@ =~= seq![acc]);
                Self::from_data_shape(data, out_shape.as_slice())
            },
            Some(ax) => {
                let out_shape = reduce_index(self.shape.as_slice(), ax, keepdims, 1);
                proof {
                    assert(suffix_prod(out_shape@, 0) <= isize::MAX);
                }
                let out_n = checked_size(out_shape.as_slice()).unwrap();
                let mut out = Self::from_data_shape(filled(T::from(0u8), out_n), out_shape.as_slice());
                let ghost os = out_shape@;
                assert(out.spec_data() =~= Seq::new(
                    shape_size(os),
                    |j: int| axis_acc(*self, ax as int, keepdims, j, 0),
                ));
                let mut k: usize = 0;
                while k < n
                    invariant
                        k <= n,
                        n == self.size(),
                        ax < rank == self.shape@.len(),
                        self.wf(),
                        self.all_addressable(),
                        T::obeys_add_spec(),
                        sum_steps_ok(*self, axis, keepdims),
                        axis == Some(ax),
                        os == reduced_index(self.spec_shape(), ax as int, keepdims, 1),
                        out.is_fresh(),
                        out.all_addressable(),
                        out.spec_shape() == os,
                        out.spec_strides() == row_major_strides(os),
                        out.spec_data() == Seq::new(
                            shape_size(os),
                            |j: int| axis_acc(*self, ax as int, keepdims, j, k as int),
                        ),
                    decreases n - k,
                {
                    let mi = unravel_index(k, self.shape.as_slice());
                    let oi = reduce_index(mi.as_slice(), ax, keepdims, 0);
                    let ghost j = axis_target(*self, ax as int, keepdims, k as int);
                    proof {
                        lemma_unravel_in_box(k as int, self.shape@);
                        assert(in_box(mi@, self.spec_shape()));
                        lemma_reduce_in_box(mi@, self.shape@, ax as int, keepdims);
                        assert(in_box(oi@, os));
                        assert(out.resolves(oi@));
                        assert(out.addr(oi@) == j);
                    }
                    let li = out.linear_index(oi.as_slice()).unwrap();
                    let v = self.get(mi.as_slice()).unwrap();
                    proof {
                        assert(axis_steps_ok(*self, ax as int, keepdims));
                        let ghost m = k as int;
                        assert(0 <= m < self.size());
                        assert(axis_acc(
                            *self,
                            ax as int,
                            keepdims,
                            axis_target(*self, ax as int, keepdims, m),
                            m,
                        ).add_req(self.elem_at(unravel(m, self.spec_shape()))));
                    }
                    let cur = out.data[li];
                    out.data.set(li, cur + v);
                    k += 1;
                    proof {
                        assert(out.spec_data() =~= Seq::new(
                            shape_size(os),
                            |jj: int| axis_acc(*self, ax as int, keepdims, jj, k as int),
                        ));
                    }
                }
                proof {
                    out.lemma_fresh();
                }
                out
            },
        }
    }
}

/// What `set` does: it writes `value` at `idx` exactly when `idx`
/// addresses an element (and reports so in `r`); the geometry never changes.
pub open spec fn set_post<T: Copy>(
    before: NdArray<T>,
    after: NdArray<T>,
    idx: Seq<usize>,
    value: T,
    r: bool,
) -> bool {
    &&& r == before.resolves(idx)
    &&& after.spec_shape() == before.spec_shape()
    &&& after.spec_strides() == before.spec_strides()
    &&& after.spec_offset() == before.spec_offset()
    &&& after.spec_data() == (if r {
        before.spec_data().update(before.addr(idx), value)
    } else {
        before.spec_data()
    })
}

/// Writing at an index that addresses an element and then reading there
/// gives back the written value.
pub proof fn lemma_set_then_get<T: Copy>(
    before: NdArray<T>,
    after: NdArray<T>,
    idx: Seq<usize>,
    value: T,
    r: bool,
)
    requires
        set_post(before, after, idx, value, r),
        before.resolves(idx),
    ensures
        r,
        after.resolves(idx),
        after.elem_at(idx) == value,
{
}

/// A multi-index outside the shape's box (wrong rank, or a coordinate at or
/// past its extent) addresses nothing: `get` gives `None`, and `set` reports
/// `false` and changes nothing.
pub proof fn lemma_out_of_range<T: Copy>(
    before: NdArray<T>,
    after: NdArray<T>,
    idx: Seq<usize>,
    value: T,
    r: bool,
)
    requires
        !in_box(idx, before.spec_shape()),
        set_post(before, after, idx, value, r),
    ensures
        !before.resolves(idx),
        !r,
        after.spec_data() == before.spec_data(),
{
}

/// Summing with `keepdims` keeps the rank; without it a full sum has rank 0
/// and a sum over one axis loses exactly that axis.
pub proof fn lemma_sum_rank(s: Seq<usize>, axis: Option<usize>)
    requires
        axis matches Some(ax) ==> ax < s.len(),
    ensures
        reduced_shape(s, axis, true).len() == s.len(),
        axis is None ==> reduced_shape(s, axis, false).len() == 0,
        axis is Some ==> reduced_shape(s, axis, false).len() == s.len() - 1,
{
}

/// Broadcasting is symmetric in its operands.
pub proof fn lemma_broadcast_symmetric(a: Seq<usize>, b: Seq<usize>)
    ensures
        broadcast_compatible(a, b) == broadcast_compatible(b, a),
        broadcast_result(a, b) == broadcast_result(b, a),
{
    assert(max_rank(a, b) == max_rank(b, a));
    assert(broadcast_result(a, b) =~= broadcast_result(b, a));
}

/// An operand without empty axes maps every index of the broadcast box into
/// its own box.
proof fn lemma_broadcast_index_in_box(s: Seq<usize>, t: Seq<usize>, k: int)
    requires
        broadcast_compatible(s, t),
        shape_size(s) > 0,
        0 <= k < shape_size(broadcast_result(s, t)),
    ensures
        in_box(broadcast_index(s, unravel(k, broadcast_result(s, t))), s),
{
    let out = broadcast_result(s, t);
    let nd = max_rank(s, t);
    let idx = unravel(k, out);
    lemma_unravel_in_box(k, out);
    lemma_suffix_positive(s, 0);
    let bi = broadcast_index(s, idx);
    assert forall|a: int| 0 <= a < s.len() implies #[trigger] bi[a] < s[a] by {
        let i = nd - s.len() + a;
        assert(padded_dim(s, nd, i) == s[a]);
        assert(idx[i] < out[i]);
        let db = padded_dim(t, nd, i);
        assert(s[a] == db || s[a] == 1 || db == 1);
    }
}

/// Broadcast-compatible operands that address every index of their boxes
/// and have no empty axis can always be combined elementwise.
pub proof fn lemma_operands_read_ok<T: Copy>(a: NdArray<T>, b: NdArray<T>)
    requires
        a.wf(),
        b.wf(),
        a.all_addressable(),
        b.all_addressable(),
        broadcast_compatible(a.spec_shape(), b.spec_shape()),
        a.size() > 0,
        b.size() > 0,
    ensures
        a.reads_ok(broadcast_result(a.spec_shape(), b.spec_shape())),
        b.reads_ok(broadcast_result(a.spec_shape(), b.spec_shape())),
{
    let out = broadcast_result(a.spec_shape(), b.spec_shape());
    lemma_broadcast_symmetric(a.spec_shape(), b.spec_shape());
    assert forall|k: int| 0 <= k < shape_size(out) implies a.resolves(
        broadcast_index(a.spec_shape(), #[trigger] unravel(k, out)),
    ) by {
        lemma_broadcast_index_in_box(a.spec_shape(), b.spec_shape(), k);
    }
    assert forall|k: int| 0 <= k < shape_size(out) implies b.resolves(
        broadcast_index(b.spec_shape(), #[trigger] unravel(k, out)),
    ) by {
        lemma_broadcast_index_in_box(b.spec_shape(), a.spec_shape(), k);
    }
}

} // verus!
