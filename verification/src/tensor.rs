//! Strided multi-dimensional views over a shared element buffer.
//!
//! A [`Tensor`] is a view descriptor: a shape (per-dimension extents),
//! strides (per-dimension element steps) and an offset (the linear buffer
//! position of the view's origin). Any number of descriptors may describe
//! one [`Storage`] buffer; deriving a view (reshape, transpose, slice)
//! only computes new geometry and never moves or copies element data.
//!
//! Element accessors take the storage explicitly (`&Storage` to read,
//! `&mut Storage` to write), so the borrow rules enforce the exclusivity
//! discipline a shared buffer needs: a write never overlaps a live read.

use vstd::prelude::*;

use crate::storage::Storage;

verus! {

/// The typed failures of view construction and element access. Each is
/// reported at the violating call and never deferred; a failed call
/// mutates nothing.
#[derive(Clone, Copy, Debug, PartialEq, Eq, Structural)]
pub enum TensorError {
    /// A dimension index outside `[0, rank)`.
    DimensionError,
    /// An element-count mismatch, a view that cannot be reshaped in place,
    /// or a shape whose row-major strides exceed the machine word.
    ShapeError,
    /// An access or slice bound outside `[0, extent)` for some dimension.
    IndexError,
}

/// The number of elements a shape addresses: the product of its extents.
pub open spec fn numel(shape: Seq<usize>) -> nat
    decreases shape.len(),
{
    if shape.len() == 0 {
        1
    } else {
        shape[0] as nat * numel(shape.skip(1))
    }
}

/// The row-major stride of dimension `k`: the product of the extents
/// after it.
pub open spec fn row_major_stride(shape: Seq<usize>, k: int) -> nat {
    numel(shape.skip(k + 1))
}

/// `strides` is exactly the default row-major layout for `shape`.
pub open spec fn is_row_major(shape: Seq<usize>, strides: Seq<usize>) -> bool {
    &&& strides.len() == shape.len()
    &&& forall|k: int|
        0 <= k < shape.len() ==> strides[k] as nat == #[trigger] row_major_stride(shape, k)
}

/// Every suffix product of `shape` (the element count and every row-major
/// stride) fits in a machine word.
pub open spec fn strides_representable(shape: Seq<usize>) -> bool {
    forall|k: int| 0 <= k <= shape.len() ==> #[trigger] numel(shape.skip(k)) <= usize::MAX
}

/// `index` addresses an element of `shape`: same rank, and each component
/// within its dimension's extent.
pub open spec fn valid_index(shape: Seq<usize>, index: Seq<usize>) -> bool {
    &&& index.len() == shape.len()
    &&& forall|d: int| 0 <= d < shape.len() ==> #[trigger] index[d] < shape[d]
}

/// The strided sum `index[k]*strides[k] + index[k+1]*strides[k+1] + ...`
/// over the positions from `k` to the end of `index`.
pub open spec fn dot_from(index: Seq<usize>, strides: Seq<usize>, k: int) -> nat
    decreases index.len() - k,
{
    if k < 0 || k >= index.len() {
        0
    } else {
        index[k] as nat * strides[k] as nat + dot_from(index, strides, k + 1)
    }
}

/// The full strided sum of `index` against `strides`.
pub open spec fn dot(index: Seq<usize>, strides: Seq<usize>) -> nat {
    dot_from(index, strides, 0)
}

/// `s` with the entries at `a` and `b` exchanged.
pub open spec fn swapped(s: Seq<usize>, a: int, b: int) -> Seq<usize> {
    s.update(a, s[b]).update(b, s[a])
}

/// The largest multi-index of a shape whose extents are all positive.
pub open spec fn top_index(shape: Seq<usize>) -> Seq<usize> {
    Seq::new(shape.len(), |d: int| (shape[d] - 1) as usize)
}

/// A strided view: shape, strides and offset describing how multi-indices
/// map to linear positions of a shared element buffer.
///
/// A `Tensor` holds geometry only. The buffer it describes lives in a
/// [`Storage`] owned by the caller and handed to [`Tensor::get`] and
/// [`Tensor::set`]; this keeps one buffer shareable between any number of
/// views while the borrow rules still forbid overlapping mutation.
#[derive(Debug)]
pub struct Tensor {
    shape: Vec<usize>,
    strides: Vec<usize>,
    offset: usize,
}

impl Tensor {
    /// The per-dimension extents of the view.
    pub closed spec fn spec_shape(&self) -> Seq<usize> {
        self.shape@
    }

    /// The per-dimension element steps of the view.
    pub closed spec fn spec_strides(&self) -> Seq<usize> {
        self.strides@
    }

    /// The linear buffer position of the view's origin.
    pub closed spec fn spec_offset(&self) -> nat {
        self.offset as nat
    }

    /// A well-formed view carries exactly one stride per dimension.
    pub open spec fn wf(&self) -> bool {
        self.spec_strides().len() == self.spec_shape().len()
    }

    /// The linear buffer position that `index` resolves to.
    pub open spec fn linear_of(&self, index: Seq<usize>) -> nat {
        self.spec_offset() + dot(index, self.spec_strides())
    }

    /// The view stays inside a buffer of `len` elements: every valid
    /// multi-index resolves to a linear position below `len`.
    pub open spec fn fits(&self, len: nat) -> bool {
        forall|index: Seq<usize>|
            valid_index(self.spec_shape(), index) ==> #[trigger] self.linear_of(index) < len
    }

    /// The per-dimension extents of the view.
    pub fn shape(&self) -> (r: &Vec<usize>)
        ensures
            r@ == self.spec_shape(),
    {
        &self.shape
    }

    /// The per-dimension element steps of the view.
    pub fn strides(&self) -> (r: &Vec<usize>)
        ensures
            r@ == self.spec_strides(),
    {
        &self.strides
    }

    /// The linear buffer position of the view's origin.
    pub fn offset(&self) -> (r: usize)
        ensures
            r as nat == self.spec_offset(),
    {
        self.offset
    }
}

impl Clone for Tensor {
    /// Cloning copies the descriptor only — shape, strides and offset.
    /// The buffer a view describes is shared by its clones, never
    /// duplicated.
    fn clone(&self) -> (r: Self)
        ensures
            r.spec_shape() == self.spec_shape(),
            r.spec_strides() == self.spec_strides(),
            r.spec_offset() == self.spec_offset(),
    {
        Tensor { shape: copy_dims(&self.shape), strides: copy_dims(&self.strides), offset: self.offset }
    }
}

/// An element-for-element copy of a dimension vector.
fn copy_dims(v: &Vec<usize>) -> (r: Vec<usize>)
    ensures
        r@ == v@,
{
    let mut r: Vec<usize> = Vec::new();
    let mut i: usize = 0;
    while i < v.len()
        invariant
            i <= v@.len(),
            r@ == v@.take(i as int),
        decreases v@.len() - i,
    {
        r.push(v[i]);
        i = i + 1;
        proof {
            assert(r@ =~= v@.take(i as int));
        }
    }
    proof {
        assert(v@.take(v@.len() as int) =~= v@);
    }
    r
}

/// Element-wise equality of two dimension vectors.
fn dims_eq(a: &Vec<usize>, b: &Vec<usize>) -> (r: bool)
    ensures
        r == (a@ == b@),
{
    if a.len() != b.len() {
        return false;
    }
    let mut i: usize = 0;
    while i < a.len()
        invariant
            i <= a@.len(),
            a@.len() == b@.len(),
            forall|j: int| 0 <= j < i ==> a@[j] == b@[j],
        decreases a@.len() - i,
    {
        if a[i] != b[i] {
            return false;
        }
        i = i + 1;
    }
    proof {
        assert(a@ =~= b@);
    }
    true
}

/// The row-major strides of `shape` together with its element count, or
/// `None` when some suffix product of `shape` does not fit in a machine
/// word.
fn row_major(shape: &Vec<usize>) -> (r: Option<(Vec<usize>, usize)>)
    ensures
        (match r {
            Some(p) => strides_representable(shape@) && is_row_major(shape@, p.0@) && p.1 as nat
                == numel(shape@),
            None => !strides_representable(shape@),
        }),
{
    let n: usize = shape.len();
    let mut strides: Vec<usize> = vec![0usize; n];
    let mut acc: usize = 1;
    let mut k: usize = n;
    proof {
        assert(shape@.skip(n as int) =~= Seq::<usize>::empty());
    }
    while k > 0
        invariant
            k <= n,
            n == shape@.len(),
            strides@.len() == n,
            acc as nat == numel(shape@.skip(k as int)),
            forall|j: int| k <= j < n ==> strides@[j] as nat == #[trigger] row_major_stride(
                shape@,
                j,
            ),
            forall|j: int| k <= j <= n ==> #[trigger] numel(shape@.skip(j)) <= usize::MAX,
        decreases k,
    {
        k = k - 1;
        strides[k] = acc;
        proof {
            assert(shape@.skip(k as int).skip(1) =~= shape@.skip(k as int + 1));
            assert(shape@.skip(k as int)[0] == shape@[k as int]);
            assert(numel(shape@.skip(k as int)) == shape@[k as int] as nat * numel(
                shape@.skip(k as int + 1),
            ));
        }
        match shape[k].checked_mul(acc) {
            Some(a) => {
                acc = a;
            },
            None => {
                proof {
                    assert(numel(shape@.skip(k as int)) > usize::MAX);
                }
                return None;
            },
        }
    }
    proof {
        assert(shape@.skip(0) =~= shape@);
    }
    Some((strides, acc))
}

impl Tensor {
    /// Builds a fresh contiguous view over `shape`: row-major strides and
    /// offset zero. The view addresses exactly `numel(shape)` elements, so
    /// it fits any buffer of at least that many — allocate one with
    /// `Storage::new(t.numel(), device)`.
    ///
    /// Fails with `ShapeError` when some row-major stride of `shape`, or
    /// its element count, does not fit in a machine word.
    pub fn from_shape(shape: Vec<usize>) -> (r: Result<Tensor, TensorError>)
        ensures
            (match r {
                Ok(t) => {
                    &&& strides_representable(shape@)
                    &&& t.spec_shape() == shape@
                    &&& is_row_major(shape@, t.spec_strides())
                    &&& t.spec_offset() == 0
                    &&& t.wf()
                    &&& t.fits(numel(shape@))
                },
                Err(e) => e == TensorError::ShapeError && !strides_representable(shape@),
            }),
    {
        let (strides, _count) = match row_major(&shape) {
            Some(p) => p,
            None => {
                return Err(TensorError::ShapeError);
            },
        };
        let t = Tensor { shape, strides, offset: 0 };
        proof {
            assert forall|index: Seq<usize>| valid_index(t.spec_shape(), index) implies #[trigger] t.linear_of(
                index,
            ) < numel(t.spec_shape()) by {
                lemma_row_major_dot_bound(t.spec_shape(), t.spec_strides(), index, 0);
                assert(t.spec_shape().skip(0) =~= t.spec_shape());
            }
        }
        Ok(t)
    }

    /// The number of elements the view addresses: the product of its
    /// extents.
    pub fn numel(&self) -> (n: usize)
        requires
            numel(self.spec_shape()) <= usize::MAX,
        ensures
            n as nat == numel(self.spec_shape()),
    {
        let rank: usize = self.shape.len();
        let mut d: usize = 0;
        while d < rank
            invariant
                d <= rank,
                rank == self.spec_shape().len(),
                forall|j: int| 0 <= j < d ==> #[trigger] self.spec_shape()[j] >= 1,
            decreases rank - d,
        {
            if self.shape[d] == 0 {
                proof {
                    lemma_numel_zero(self.spec_shape());
                    assert(0 <= d < self.spec_shape().len() && self.spec_shape()[d as int] == 0);
                }
                return 0;
            }
            d = d + 1;
        }
        let mut acc: usize = 1;
        let mut k: usize = rank;
        proof {
            assert(self.spec_shape().skip(rank as int) =~= Seq::<usize>::empty());
        }
        while k > 0
            invariant
                k <= rank,
                rank == self.spec_shape().len(),
                numel(self.spec_shape()) <= usize::MAX,
                forall|j: int| 0 <= j < rank ==> #[trigger] self.spec_shape()[j] >= 1,
                acc as nat == numel(self.spec_shape().skip(k as int)),
            decreases k,
        {
            k = k - 1;
            proof {
                lemma_numel_skip_bound(self.spec_shape(), k as int);
                assert(self.spec_shape().skip(k as int).skip(1) =~= self.spec_shape().skip(
                    k as int + 1,
                ));
                assert(self.spec_shape().skip(k as int)[0] == self.spec_shape()[k as int]);
                assert(numel(self.spec_shape().skip(k as int)) == self.spec_shape()[k as int] as nat
                    * numel(self.spec_shape().skip(k as int + 1)));
            }
            acc = self.shape[k] * acc;
        }
        proof {
            assert(self.spec_shape().skip(0) =~= self.spec_shape());
        }
        acc
    }

    /// Resolves `index` to its linear position within the first `len`
    /// buffer elements. Fails with `IndexError` when the rank is wrong,
    /// some component is outside its extent, or the resolved position does
    /// not lie below `len`.
    pub fn locate(&self, len: usize, index: &Vec<usize>) -> (r: Result<usize, TensorError>)
        requires
            self.wf(),
        ensures
            (match r {
                Ok(lin) => valid_index(self.spec_shape(), index@) && lin as nat == self.linear_of(
                    index@,
                ) && lin < len,
                Err(e) => e == TensorError::IndexError && !(valid_index(self.spec_shape(), index@)
                    && self.linear_of(index@) < len),
            }),
    {
        let rank: usize = self.shape.len();
        if index.len() != rank {
            return Err(TensorError::IndexError);
        }
        let mut acc: usize = self.offset;
        let mut d: usize = 0;
        while d < rank
            invariant
                self.wf(),
                d <= rank,
                rank == self.spec_shape().len(),
                index@.len() == rank,
                acc as nat + dot_from(index@, self.spec_strides(), d as int) == self.linear_of(
                    index@,
                ),
                forall|j: int| 0 <= j < d ==> #[trigger] index@[j] < self.spec_shape()[j],
            decreases rank - d,
        {
            if index[d] >= self.shape[d] {
                return Err(TensorError::IndexError);
            }
            let term: usize = match index[d].checked_mul(self.strides[d]) {
                Some(t) => t,
                None => {
                    proof {
                        assert(dot_from(index@, self.spec_strides(), d as int) >= index@[d as int] as nat
                            * self.spec_strides()[d as int] as nat);
                    }
                    return Err(TensorError::IndexError);
                },
            };
            acc = match acc.checked_add(term) {
                Some(a) => a,
                None => {
                    return Err(TensorError::IndexError);
                },
            };
            d = d + 1;
        }
        if acc < len {
            Ok(acc)
        } else {
            Err(TensorError::IndexError)
        }
    }

    /// Reads the element `index` addresses through this view of `storage`.
    /// Fails with `IndexError` exactly when `index` has the wrong rank,
    /// some component is outside its extent, or the resolved linear
    /// position lies outside the buffer.
    pub fn get<'a, T>(&self, storage: &'a Storage<T>, index: &Vec<usize>) -> (r: Result<
        &'a T,
        TensorError,
    >)
        requires
            self.wf(),
        ensures
            (match r {
                Ok(v) => valid_index(self.spec_shape(), index@) && self.linear_of(index@)
                    < storage@.len() && *v == storage@[self.linear_of(index@) as int],
                Err(e) => e == TensorError::IndexError && !(valid_index(self.spec_shape(), index@)
                    && self.linear_of(index@) < storage@.len()),
            }),
    {
        match self.locate(storage.len(), index) {
            Ok(lin) => Ok(storage.read(lin)),
            Err(e) => Err(e),
        }
    }

    /// Writes `value` to the element `index` addresses through this view
    /// of `storage`. Validation comes first: on failure the buffer is
    /// untouched and the error says why, exactly as for [`Tensor::get`].
    pub fn set<T>(&self, storage: &mut Storage<T>, index: &Vec<usize>, value: T) -> (r: Result<
        (),
        TensorError,
    >)
        requires
            self.wf(),
        ensures
            (match r {
                Ok(_) => valid_index(self.spec_shape(), index@) && self.linear_of(index@) < old(
                    storage,
                )@.len() && final(storage)@ == old(storage)@.update(
                    self.linear_of(index@) as int,
                    value,
                ),
                Err(e) => e == TensorError::IndexError && !(valid_index(self.spec_shape(), index@)
                    && self.linear_of(index@) < old(storage)@.len()) && final(storage)@ == old(
                    storage,
                )@,
            }),
            final(storage).spec_device() == old(storage).spec_device(),
    {
        let len: usize = storage.len();
        match self.locate(len, index) {
            Ok(lin) => {
                storage.write(lin, value);
                Ok(())
            },
            Err(e) => Err(e),
        }
    }

    /// A view of the same buffer with dimensions `dim_a` and `dim_b`
    /// exchanged in both shape and strides; the offset is unchanged and no
    /// data moves. Fails with `DimensionError` when either index is
    /// outside `[0, rank)`.
    pub fn transpose(&self, dim_a: usize, dim_b: usize) -> (r: Result<Tensor, TensorError>)
        requires
            self.wf(),
        ensures
            (match r {
                Ok(t) => {
                    &&& dim_a < self.spec_shape().len()
                    &&& dim_b < self.spec_shape().len()
                    &&& t.spec_shape() == swapped(self.spec_shape(), dim_a as int, dim_b as int)
                    &&& t.spec_strides() == swapped(
                        self.spec_strides(),
                        dim_a as int,
                        dim_b as int,
                    )
                    &&& t.spec_offset() == self.spec_offset()
                    &&& t.wf()
                    &&& forall|n: nat| #[trigger] self.fits(n) ==> t.fits(n)
                },
                Err(e) => e == TensorError::DimensionError && (dim_a >= self.spec_shape().len()
                    || dim_b >= self.spec_shape().len()),
            }),
    {
        let rank: usize = self.shape.len();
        if dim_a >= rank || dim_b >= rank {
            return Err(TensorError::DimensionError);
        }
        let mut shape = copy_dims(&self.shape);
        let mut strides = copy_dims(&self.strides);
        shape[dim_a] = self.shape[dim_b];
        shape[dim_b] = self.shape[dim_a];
        strides[dim_a] = self.strides[dim_b];
        strides[dim_b] = self.strides[dim_a];
        let t = Tensor { shape, strides, offset: self.offset };
        proof {
            let a: int = dim_a as int;
            let b: int = dim_b as int;
            assert(t.spec_shape() =~= swapped(self.spec_shape(), a, b));
            assert(t.spec_strides() =~= swapped(self.spec_strides(), a, b));
            assert forall|n: nat| #[trigger] self.fits(n) implies t.fits(n) by {
                assert forall|index: Seq<usize>| valid_index(t.spec_shape(), index) implies #[trigger] t.linear_of(
                    index,
                ) < n by {
                    let back = swapped(index, a, b);
                    lemma_swapped_valid(t.spec_shape(), index, a, b);
                    lemma_swapped_involutive(self.spec_shape(), a, b);
                    lemma_swapped_involutive(self.spec_strides(), a, b);
                    lemma_dot_swap(index, t.spec_strides(), a, b);
                    assert(valid_index(self.spec_shape(), back));
                    assert(self.linear_of(back) < n);
                }
            }
        }
        Ok(t)
    }

    /// A view of the same buffer restricted, along dimension `dim`, to the
    /// half-open range `[start, end)`: the extent there becomes
    /// `end - start`, strides are unchanged, and the origin advances by
    /// `start` steps of that dimension's stride. No data moves.
    ///
    /// Fails with `DimensionError` when `dim` is outside `[0, rank)`, and
    /// with `IndexError` when `start > end` or `end > shape[dim]`.
    ///
    /// An empty result can nominally place its origin beyond the machine's
    /// address range; such a view addresses nothing and its origin is
    /// normalized to zero.
    pub fn slice(&self, dim: usize, start: usize, end: usize) -> (r: Result<Tensor, TensorError>)
        requires
            self.wf(),
        ensures
            (match r {
                Ok(t) => {
                    &&& dim < self.spec_shape().len()
                    &&& start <= end <= self.spec_shape()[dim as int]
                    &&& t.spec_shape() == self.spec_shape().update(
                        dim as int,
                        (end - start) as usize,
                    )
                    &&& t.spec_strides() == self.spec_strides()
                    &&& (if self.spec_offset() + start as nat * self.spec_strides()[dim as int] as nat
                        <= usize::MAX {
                        t.spec_offset() == self.spec_offset() + start as nat
                            * self.spec_strides()[dim as int] as nat
                    } else {
                        t.spec_offset() == 0
                    })
                    &&& t.wf()
                    &&& forall|n: nat| #[trigger] self.fits(n) ==> t.fits(n)
                },
                Err(e) => (if dim >= self.spec_shape().len() {
                    e == TensorError::DimensionError
                } else {
                    e == TensorError::IndexError && (start > end || end
                        > self.spec_shape()[dim as int])
                }),
            }),
    {
        let rank: usize = self.shape.len();
        if dim >= rank {
            return Err(TensorError::DimensionError);
        }
        if start > end || end > self.shape[dim] {
            return Err(TensorError::IndexError);
        }
        let mut shape = copy_dims(&self.shape);
        shape[dim] = end - start;
        let strides = copy_dims(&self.strides);
        let new_offset: usize = match self.strides[dim].checked_mul(start) {
            Some(step) => match self.offset.checked_add(step) {
                Some(o) => o,
                None => 0,
            },
            None => 0,
        };
        let t = Tensor { shape, strides, offset: new_offset };
        proof {
            let di: int = dim as int;
            assert(self.spec_strides()[di] as nat * start as nat == start as nat
                * self.spec_strides()[di] as nat) by (nonlinear_arith);
            assert(t.spec_offset() <= self.spec_offset() + start as nat
                * self.spec_strides()[di] as nat);
            assert forall|n: nat| #[trigger] self.fits(n) implies t.fits(n) by {
                assert forall|index: Seq<usize>| valid_index(t.spec_shape(), index) implies #[trigger] t.linear_of(
                    index,
                ) < n by {
                    assert(t.spec_shape() == self.spec_shape().update(di, (end - start) as usize));
                    assert(t.spec_strides() == self.spec_strides());
                    assert(index[di] < t.spec_shape()[di]);
                    assert(index[di] < (end - start) as usize);
                    assert(index[di] + start < end <= self.spec_shape()[di] <= usize::MAX);
                    let moved: usize = (index[di] + start) as usize;
                    let back = index.update(di, moved);
                    lemma_dot_update_index(index, self.spec_strides(), di, moved, 0);
                    assert(dot(back, self.spec_strides()) + index[di] as nat
                        * self.spec_strides()[di] as nat == dot(index, self.spec_strides())
                        + moved as nat * self.spec_strides()[di] as nat);
                    assert(moved as nat * self.spec_strides()[di] as nat == index[di] as nat
                        * self.spec_strides()[di] as nat + start as nat
                        * self.spec_strides()[di] as nat) by (nonlinear_arith)
                        requires
                            moved as nat == index[di] as nat + start as nat,
                    ;
                    assert(dot(back, self.spec_strides()) == dot(index, self.spec_strides())
                        + start as nat * self.spec_strides()[di] as nat);
                    assert forall|d: int| 0 <= d < self.spec_shape().len() implies #[trigger] back[d]
                        < self.spec_shape()[d] by {
                        if d != di {
                            assert(index[d] < t.spec_shape()[d]);
                        }
                    }
                    assert(valid_index(self.spec_shape(), back));
                    assert(self.linear_of(back) < n);
                    assert(t.spec_offset() <= self.spec_offset() + start as nat
                        * self.spec_strides()[di] as nat);
                    assert(t.linear_of(index) <= self.linear_of(back));
                }
            }
        }
        Ok(t)
    }

    /// A contiguous view reorganized to a new shape with the same element
    /// count: same buffer, same offset, row-major strides for `new_shape`.
    /// No data moves, so the element at any row-major rank is unchanged.
    ///
    /// Fails with `ShapeError` — never copying — when the element counts
    /// differ, when this view is not contiguous (its strides are not the
    /// row-major layout of its shape), or when a row-major stride of
    /// `new_shape` does not fit in a machine word.
    pub fn reshape(&self, new_shape: Vec<usize>) -> (r: Result<Tensor, TensorError>)
        requires
            self.wf(),
        ensures
            (match r {
                Ok(t) => {
                    &&& strides_representable(new_shape@)
                    &&& numel(new_shape@) == numel(self.spec_shape())
                    &&& is_row_major(self.spec_shape(), self.spec_strides())
                    &&& t.spec_shape() == new_shape@
                    &&& is_row_major(new_shape@, t.spec_strides())
                    &&& t.spec_offset() == self.spec_offset()
                    &&& t.wf()
                    &&& forall|n: nat| #[trigger] self.fits(n) ==> t.fits(n)
                },
                Err(e) => e == TensorError::ShapeError && !(strides_representable(new_shape@)
                    && numel(new_shape@) == numel(self.spec_shape()) && is_row_major(
                    self.spec_shape(),
                    self.spec_strides(),
                )),
            }),
    {
        let (new_strides, new_count) = match row_major(&new_shape) {
            Some(p) => p,
            None => {
                return Err(TensorError::ShapeError);
            },
        };
        let (def_strides, own_count) = match row_major(&self.shape) {
            Some(p) => p,
            None => {
                proof {
                    lemma_unrepresentable_not_contiguous(
                        self.spec_shape(),
                        self.spec_strides(),
                        new_shape@,
                    );
                }
                return Err(TensorError::ShapeError);
            },
        };
        if new_count != own_count {
            return Err(TensorError::ShapeError);
        }
        if !dims_eq(&self.strides, &def_strides) {
            proof {
                if is_row_major(self.spec_shape(), self.spec_strides()) {
                    assert forall|j: int| 0 <= j < self.spec_strides().len() implies self.spec_strides()[j]
                        == def_strides@[j] by {
                        assert(self.spec_strides()[j] as nat == row_major_stride(
                            self.spec_shape(),
                            j,
                        ));
                    }
                    assert(self.spec_strides() =~= def_strides@);
                }
            }
            return Err(TensorError::ShapeError);
        }
        let t = Tensor { shape: new_shape, strides: new_strides, offset: self.offset };
        proof {
            assert(self.spec_strides() =~= def_strides@);
            assert forall|n: nat| #[trigger] self.fits(n) implies t.fits(n) by {
                assert forall|index: Seq<usize>| valid_index(t.spec_shape(), index) implies #[trigger] t.linear_of(
                    index,
                ) < n by {
                    lemma_row_major_dot_bound(t.spec_shape(), t.spec_strides(), index, 0);
                    assert(t.spec_shape().skip(0) =~= t.spec_shape());
                    lemma_numel_zero(t.spec_shape());
                    assert(numel(t.spec_shape()) > 0);
                    lemma_contiguous_capacity(*self, n);
                }
            }
        }
        Ok(t)
    }
}

/// Unfolds `numel` one step: the count of a nonempty suffix is the first
/// extent times the count of the rest.
proof fn lemma_numel_unfold(s: Seq<usize>, k: int)
    requires
        0 <= k < s.len(),
    ensures
        numel(s.skip(k)) == s[k] as nat * numel(s.skip(k + 1)),
{
    assert(s.skip(k).skip(1) =~= s.skip(k + 1));
    assert(s.skip(k)[0] == s[k]);
}

/// A shape addresses zero elements exactly when some extent is zero.
proof fn lemma_numel_zero(s: Seq<usize>)
    ensures
        (numel(s) == 0) <==> (exists|d: int| 0 <= d < s.len() && s[d] == 0),
    decreases s.len(),
{
    if s.len() == 0 {
    } else {
        lemma_numel_zero(s.skip(1));
        assert(numel(s) == s[0] as nat * numel(s.skip(1)));
        assert((s[0] as nat * numel(s.skip(1)) == 0) <==> (s[0] as nat == 0 || numel(s.skip(1))
            == 0)) by (nonlinear_arith);
        if numel(s) == 0 {
            if s[0] == 0 {
                assert(0 <= 0 < s.len() && s[0] == 0);
            } else {
                let d0 = choose|d: int| 0 <= d < s.skip(1).len() && s.skip(1)[d] == 0;
                assert(s[d0 + 1] == s.skip(1)[d0]);
                assert(0 <= d0 + 1 < s.len() && s[d0 + 1] == 0);
            }
        }
        if exists|d: int| 0 <= d < s.len() && s[d] == 0 {
            let d0 = choose|d: int| 0 <= d < s.len() && s[d] == 0;
            if d0 == 0 {
            } else {
                assert(s.skip(1)[d0 - 1] == s[d0]);
                assert(0 <= d0 - 1 < s.skip(1).len() && s.skip(1)[d0 - 1] == 0);
            }
        }
    }
}

/// Dropping leading extents of an all-positive shape never increases the
/// element count.
proof fn lemma_numel_skip_bound(s: Seq<usize>, k: int)
    requires
        0 <= k <= s.len(),
        forall|d: int| 0 <= d < s.len() ==> #[trigger] s[d] >= 1,
    ensures
        numel(s.skip(k)) <= numel(s),
    decreases k,
{
    if k == 0 {
        assert(s.skip(0) =~= s);
    } else {
        lemma_numel_skip_bound(s, k - 1);
        lemma_numel_unfold(s, k - 1);
        let m = numel(s.skip(k));
        let a = s[k - 1] as nat;
        assert(m <= a * m) by (nonlinear_arith)
            requires
                a >= 1,
        ;
    }
}

/// Against row-major strides, any valid suffix of a multi-index resolves
/// strictly below the suffix's element count.
proof fn lemma_row_major_dot_bound(shape: Seq<usize>, strides: Seq<usize>, index: Seq<usize>, k: int)
    requires
        is_row_major(shape, strides),
        index.len() == shape.len(),
        forall|d: int| k <= d < shape.len() ==> #[trigger] index[d] < shape[d],
        0 <= k <= shape.len(),
    ensures
        dot_from(index, strides, k) < numel(shape.skip(k)),
    decreases shape.len() - k,
{
    if k == shape.len() {
        assert(shape.skip(k) =~= Seq::<usize>::empty());
    } else {
        lemma_row_major_dot_bound(shape, strides, index, k + 1);
        lemma_numel_unfold(shape, k);
        let m = numel(shape.skip(k + 1));
        let ik = index[k] as nat;
        let sk = shape[k] as nat;
        assert(strides[k] as nat == row_major_stride(shape, k));
        assert(ik * m + m <= sk * m) by (nonlinear_arith)
            requires
                ik < sk,
        ;
    }
}

/// The strided sum of the componentwise-largest valid multi-index of an
/// all-positive shape, against row-major strides, is the element count
/// less one.
proof fn lemma_row_major_top(shape: Seq<usize>, strides: Seq<usize>, k: int)
    requires
        is_row_major(shape, strides),
        forall|d: int| 0 <= d < shape.len() ==> #[trigger] shape[d] >= 1,
        0 <= k <= shape.len(),
    ensures
        dot_from(top_index(shape), strides, k) + 1 == numel(shape.skip(k)),
    decreases shape.len() - k,
{
    if k == shape.len() {
        assert(shape.skip(k) =~= Seq::<usize>::empty());
    } else {
        lemma_row_major_top(shape, strides, k + 1);
        lemma_numel_unfold(shape, k);
        let m = numel(shape.skip(k + 1));
        let sk = shape[k] as nat;
        assert(strides[k] as nat == row_major_stride(shape, k));
        assert(top_index(shape)[k] as nat == sk - 1);
        assert((sk - 1) * m + m == sk * m) by (nonlinear_arith)
            requires
                sk >= 1,
        ;
    }
}

/// A nonempty contiguous view that fits a buffer occupies exactly the
/// elements from its offset to its offset plus its element count.
proof fn lemma_contiguous_capacity(t: Tensor, len: nat)
    requires
        t.wf(),
        is_row_major(t.spec_shape(), t.spec_strides()),
        t.fits(len),
        numel(t.spec_shape()) > 0,
    ensures
        t.spec_offset() + numel(t.spec_shape()) <= len,
{
    lemma_numel_zero(t.spec_shape());
    assert forall|d: int| 0 <= d < t.spec_shape().len() implies #[trigger] t.spec_shape()[d]
        >= 1 by {
        if t.spec_shape()[d] == 0 {
            assert(0 <= d < t.spec_shape().len() && t.spec_shape()[d] == 0);
        }
    }
    let top = top_index(t.spec_shape());
    lemma_row_major_top(t.spec_shape(), t.spec_strides(), 0);
    assert(t.spec_shape().skip(0) =~= t.spec_shape());
    assert(valid_index(t.spec_shape(), top));
    assert(t.linear_of(top) < len);
}

/// A shape with an unrepresentable suffix product admits no contiguous
/// layout of equal count to a representable one.
proof fn lemma_unrepresentable_not_contiguous(shape: Seq<usize>, strides: Seq<usize>, other: Seq<usize>)
    requires
        !strides_representable(shape),
    ensures
        !(strides_representable(other) && numel(other) == numel(shape) && is_row_major(
            shape,
            strides,
        )),
{
    if strides_representable(other) && numel(other) == numel(shape) && is_row_major(
        shape,
        strides,
    ) {
        assert forall|j: int| 0 <= j <= shape.len() implies #[trigger] numel(shape.skip(j))
            <= usize::MAX by {
            if j == shape.len() {
                assert(shape.skip(j) =~= Seq::<usize>::empty());
            } else if j == 0 {
                assert(shape.skip(0) =~= shape);
                assert(other.skip(0) =~= other);
                assert(numel(other.skip(0)) <= usize::MAX);
            } else {
                assert(strides[j - 1] as nat == row_major_stride(shape, j - 1));
            }
        }
    }
}

/// Replacing one component of a multi-index shifts the strided sum by the
/// difference of the old and new terms; positions after the replacement
/// are unaffected.
proof fn lemma_dot_update_index(index: Seq<usize>, strides: Seq<usize>, p: int, v: usize, k: int)
    requires
        0 <= p < index.len(),
        0 <= k <= index.len(),
    ensures
        k <= p ==> dot_from(index.update(p, v), strides, k) + index[p] as nat * strides[p] as nat
            == dot_from(index, strides, k) + v as nat * strides[p] as nat,
        k > p ==> dot_from(index.update(p, v), strides, k) == dot_from(index, strides, k),
    decreases index.len() - k,
{
    if k == index.len() {
    } else {
        lemma_dot_update_index(index, strides, p, v, k + 1);
    }
}

/// Replacing one stride shifts the strided sum by the difference of the
/// old and new terms; positions after the replacement are unaffected.
proof fn lemma_dot_update_strides(index: Seq<usize>, strides: Seq<usize>, p: int, w: usize, k: int)
    requires
        0 <= p < index.len(),
        index.len() <= strides.len(),
        0 <= k <= index.len(),
    ensures
        k <= p ==> dot_from(index, strides.update(p, w), k) + index[p] as nat * strides[p] as nat
            == dot_from(index, strides, k) + index[p] as nat * w as nat,
        k > p ==> dot_from(index, strides.update(p, w), k) == dot_from(index, strides, k),
    decreases index.len() - k,
{
    if k == index.len() {
    } else {
        lemma_dot_update_strides(index, strides, p, w, k + 1);
    }
}

/// Exchanging the same two positions in a multi-index and in the strides
/// leaves the strided sum unchanged.
proof fn lemma_dot_swap(index: Seq<usize>, strides: Seq<usize>, a: int, b: int)
    requires
        index.len() == strides.len(),
        0 <= a < index.len(),
        0 <= b < index.len(),
    ensures
        dot(swapped(index, a, b), swapped(strides, a, b)) == dot(index, strides),
{
    if a == b {
        assert(swapped(index, a, b) =~= index);
        assert(swapped(strides, a, b) =~= strides);
    } else {
        let u1 = index.update(a, index[b]);
        let u2 = u1.update(b, index[a]);
        let v1 = strides.update(a, strides[b]);
        let v2 = v1.update(b, strides[a]);
        lemma_dot_update_index(index, strides, a, index[b], 0);
        lemma_dot_update_index(u1, strides, b, index[a], 0);
        lemma_dot_update_strides(u2, strides, a, strides[b], 0);
        lemma_dot_update_strides(u2, v1, b, strides[a], 0);
        assert(u1[b] == index[b]);
        assert(u2[a] == index[b]);
        assert(u2[b] == index[a]);
        assert(v1[b] == strides[b]);
        assert(u1[a] == index[b]);
        assert(u2 == swapped(index, a, b));
        assert(v2 == swapped(strides, a, b));
    }
}

/// Exchanging the same two positions twice restores a sequence.
proof fn lemma_swapped_involutive(s: Seq<usize>, a: int, b: int)
    requires
        0 <= a < s.len(),
        0 <= b < s.len(),
    ensures
        swapped(swapped(s, a, b), a, b) == s,
{
    assert(swapped(swapped(s, a, b), a, b) =~= s);
}

/// A multi-index valid for a shape stays valid when both are swapped the
/// same way.
proof fn lemma_swapped_valid(shape: Seq<usize>, index: Seq<usize>, a: int, b: int)
    requires
        0 <= a < shape.len(),
        0 <= b < shape.len(),
        valid_index(shape, index),
    ensures
        valid_index(swapped(shape, a, b), swapped(index, a, b)),
{
    assert forall|d: int| 0 <= d < swapped(shape, a, b).len() implies #[trigger] swapped(
        index,
        a,
        b,
    )[d] < swapped(shape, a, b)[d] by {
        assert(index[a] < shape[a]);
        assert(index[b] < shape[b]);
        assert(index[d] < shape[d]);
    }
}

/// Reshaping moves no data: a contiguous view and its reshape read, at
/// multi-indices of equal row-major rank, the same buffer element.
pub proof fn lemma_reshape_reads_same_elements<T>(
    t: Tensor,
    u: Tensor,
    buf: Seq<T>,
    it: Seq<usize>,
    iu: Seq<usize>,
)
    requires
        t.wf(),
        u.wf(),
        is_row_major(t.spec_shape(), t.spec_strides()),
        is_row_major(u.spec_shape(), u.spec_strides()),
        u.spec_offset() == t.spec_offset(),
        valid_index(t.spec_shape(), it),
        valid_index(u.spec_shape(), iu),
        dot(it, t.spec_strides()) == dot(iu, u.spec_strides()),
        t.linear_of(it) < buf.len(),
    ensures
        u.linear_of(iu) < buf.len(),
        buf[u.linear_of(iu) as int] == buf[t.linear_of(it) as int],
{
}

/// Transposing the same two dimensions twice restores the view exactly:
/// shape, strides and offset all return to their original values.
pub proof fn lemma_transpose_involutive(t: Tensor, u: Tensor, v: Tensor, a: int, b: int)
    requires
        t.wf(),
        0 <= a < t.spec_shape().len(),
        0 <= b < t.spec_shape().len(),
        u.spec_shape() == swapped(t.spec_shape(), a, b),
        u.spec_strides() == swapped(t.spec_strides(), a, b),
        u.spec_offset() == t.spec_offset(),
        v.spec_shape() == swapped(u.spec_shape(), a, b),
        v.spec_strides() == swapped(u.spec_strides(), a, b),
        v.spec_offset() == u.spec_offset(),
    ensures
        v.spec_shape() == t.spec_shape(),
        v.spec_strides() == t.spec_strides(),
        v.spec_offset() == t.spec_offset(),
{
    lemma_swapped_involutive(t.spec_shape(), a, b);
    lemma_swapped_involutive(t.spec_strides(), a, b);
}

/// Aliasing: a write through one view is seen through every view of the
/// same buffer — the written linear position reads the new value, and
/// every other position reads as before.
pub proof fn lemma_write_visible_through_views<T>(
    w: Tensor,
    rd: Tensor,
    buf: Seq<T>,
    iw: Seq<usize>,
    ir: Seq<usize>,
    value: T,
)
    requires
        w.linear_of(iw) < buf.len(),
        rd.linear_of(ir) < buf.len(),
    ensures
        w.linear_of(iw) == rd.linear_of(ir) ==> buf.update(w.linear_of(iw) as int, value)[rd.linear_of(
            ir,
        ) as int] == value,
        w.linear_of(iw) != rd.linear_of(ir) ==> buf.update(w.linear_of(iw) as int, value)[rd.linear_of(
            ir,
        ) as int] == buf[rd.linear_of(ir) as int],
{
}

} // verus!
