//! A dense multi-dimensional container.
//!
//! A `MultiDim<T>` is built from one extent per axis and stores its elements
//! in a single flat buffer, addressed by mixed-radix encoding of coordinate
//! tuples.  Every access validates the tuple first: a tuple of the wrong
//! length is reported as `IndexMismatch`, and a tuple with a component above
//! its axis's stored size as `IndexOutOfRange`.

use vstd::prelude::*;

verus! {

/// Why a coordinate tuple was rejected.
#[derive(Debug, PartialEq, Eq, Structural)]
pub enum DimError {
    /// The tuple's length differs from the number of axes.
    IndexMismatch,
    /// The tuple has the right length but a component exceeds its axis.
    IndexOutOfRange,
}

/// Product of a sequence of per-axis sizes.
pub open spec fn seq_product(s: Seq<usize>) -> int
    decreases s.len(),
{
    if s.len() <= 0 {
        1
    } else {
        (s[0] as int) * seq_product(s.skip(1))
    }
}

/// Product of `extent + 1` over a sequence of requested extents: the number
/// of elements a container built from those extents holds.
pub open spec fn extents_product(extents: Seq<usize>) -> int
    decreases extents.len(),
{
    if extents.len() <= 0 {
        1
    } else {
        (extents[0] + 1) * extents_product(extents.skip(1))
    }
}

proof fn lemma_seq_product_pos(s: Seq<usize>)
    requires
        forall|i: int| 0 <= i < s.len() ==> s[i] >= 1,
    ensures
        seq_product(s) >= 1,
    decreases s.len(),
{
    if s.len() > 0 {
        lemma_seq_product_pos(s.skip(1));
        assert((s[0] as int) * seq_product(s.skip(1)) >= 1) by (nonlinear_arith)
            requires
                s[0] >= 1,
                seq_product(s.skip(1)) >= 1,
        ;
    }
}

proof fn lemma_extents_product_pos(e: Seq<usize>)
    ensures
        extents_product(e) >= 1,
    decreases e.len(),
{
    if e.len() > 0 {
        lemma_extents_product_pos(e.skip(1));
        assert((e[0] + 1) * extents_product(e.skip(1)) >= 1) by (nonlinear_arith)
            requires
                e[0] >= 0,
                extents_product(e.skip(1)) >= 1,
        ;
    }
}

/// Each single factor `e[i] + 1` is bounded by the whole product.
proof fn lemma_extents_product_factor(e: Seq<usize>, i: int)
    requires
        0 <= i < e.len(),
    ensures
        e[i] + 1 <= extents_product(e),
    decreases i,
{
    lemma_extents_product_pos(e.skip(1));
    if i == 0 {
        assert(e[0] + 1 <= (e[0] + 1) * extents_product(e.skip(1))) by (nonlinear_arith)
            requires
                e[0] >= 0,
                extents_product(e.skip(1)) >= 1,
        ;
    } else {
        lemma_extents_product_factor(e.skip(1), i - 1);
        assert(extents_product(e.skip(1)) <= (e[0] + 1) * extents_product(e.skip(1)))
            by (nonlinear_arith)
            requires
                e[0] >= 0,
                extents_product(e.skip(1)) >= 1,
        ;
    }
}

/// A sequence of sizes that are exactly the extents shifted up by one has
/// the extents' product.
proof fn lemma_sizes_product(e: Seq<usize>, s: Seq<usize>)
    requires
        s.len() == e.len(),
        forall|i: int| 0 <= i < e.len() ==> s[i] == e[i] + 1,
    ensures
        seq_product(s) == extents_product(e),
    decreases e.len(),
{
    if e.len() > 0 {
        lemma_sizes_product(e.skip(1), s.skip(1));
    }
}

/// Appending one factor multiplies the product by it.
proof fn lemma_seq_product_push(s: Seq<usize>, x: usize)
    ensures
        seq_product(s.push(x)) == seq_product(s) * x,
    decreases s.len(),
{
    if s.len() == 0 {
        assert(s.push(x)[0] == x);
        assert(s.push(x).skip(1) =~= Seq::<usize>::empty());
        assert(seq_product(Seq::<usize>::empty()) == 1);
        assert(seq_product(s.push(x)) == (x as int) * 1);
    } else {
        assert(s.push(x)[0] == s[0]);
        assert(s.push(x).skip(1) =~= s.skip(1).push(x));
        lemma_seq_product_push(s.skip(1), x);
        assert(seq_product(s.push(x)) == (s[0] as int) * (seq_product(s.skip(1)) * x));
        assert((s[0] as int) * (seq_product(s.skip(1)) * x)
            == ((s[0] as int) * seq_product(s.skip(1))) * x) by (nonlinear_arith);
    }
}

/// Extending a prefix by one entry multiplies its product by that entry.
proof fn lemma_seq_product_take_succ(s: Seq<usize>, j: int)
    requires
        0 <= j < s.len(),
    ensures
        seq_product(s.take(j + 1)) == seq_product(s.take(j)) * (s[j] as int),
{
    assert(s.take(j + 1) =~= s.take(j).push(s[j]));
    lemma_seq_product_push(s.take(j), s[j]);
}

/// The product splits at any cut point.
proof fn lemma_seq_product_split(s: Seq<usize>, k: int)
    requires
        0 <= k <= s.len(),
    ensures
        seq_product(s) == seq_product(s.take(k)) * seq_product(s.skip(k)),
    decreases k,
{
    if k == 0 {
        assert(s.take(0) =~= Seq::<usize>::empty());
        assert(s.skip(0) =~= s);
        assert(seq_product(Seq::<usize>::empty()) == 1);
    } else {
        lemma_seq_product_split(s, k - 1);
        lemma_seq_product_take_succ(s, k - 1);
        assert(s.skip(k - 1).skip(1) =~= s.skip(k));
        assert(s.skip(k - 1)[0] == s[k - 1]);
        assert(seq_product(s.skip(k - 1)) == (s[k - 1] as int) * seq_product(s.skip(k)));
        assert(seq_product(s.take(k - 1)) * ((s[k - 1] as int) * seq_product(s.skip(k)))
            == (seq_product(s.take(k - 1)) * (s[k - 1] as int)) * seq_product(s.skip(k)))
            by (nonlinear_arith);
    }
}

/// With every size at least one, a prefix's product is at least one and at
/// most the whole product.
proof fn lemma_seq_product_prefix_le(s: Seq<usize>, k: int)
    requires
        forall|i: int| 0 <= i < s.len() ==> s[i] >= 1,
        0 <= k <= s.len(),
    ensures
        1 <= seq_product(s.take(k)),
        seq_product(s.take(k)) <= seq_product(s),
{
    lemma_seq_product_split(s, k);
    assert(forall|i: int| 0 <= i < s.take(k).len() ==> s.take(k)[i] >= 1);
    assert(forall|i: int| 0 <= i < s.skip(k).len() ==> s.skip(k)[i] >= 1);
    lemma_seq_product_pos(s.take(k));
    lemma_seq_product_pos(s.skip(k));
    assert(seq_product(s.take(k)) <= seq_product(s.take(k)) * seq_product(s.skip(k)))
        by (nonlinear_arith)
        requires
            seq_product(s.take(k)) >= 1,
            seq_product(s.skip(k)) >= 1,
    ;
}

/// Mixed-radix flat offset of a coordinate tuple: the first axis varies
/// fastest, and each axis's own stored size grows the radix.
pub open spec fn flat_index(dims: Seq<usize>, coords: Seq<usize>) -> int
    decreases coords.len(),
{
    if coords.len() <= 0 {
        0
    } else {
        coords[0] + (dims[0] as int) * flat_index(dims.skip(1), coords.skip(1))
    }
}

proof fn lemma_flat_index_nonneg(dims: Seq<usize>, coords: Seq<usize>)
    ensures
        flat_index(dims, coords) >= 0,
    decreases coords.len(),
{
    if coords.len() > 0 {
        lemma_flat_index_nonneg(dims.skip(1), coords.skip(1));
        assert((dims[0] as int) * flat_index(dims.skip(1), coords.skip(1)) >= 0)
            by (nonlinear_arith)
            requires
                dims[0] >= 0,
                flat_index(dims.skip(1), coords.skip(1)) >= 0,
        ;
    }
}

/// A tuple whose every component stays strictly below its axis's stored size
/// maps inside the store.
proof fn lemma_flat_index_in_bounds(dims: Seq<usize>, coords: Seq<usize>)
    requires
        coords.len() == dims.len(),
        forall|i: int| 0 <= i < coords.len() ==> coords[i] < dims[i],
    ensures
        0 <= flat_index(dims, coords) < seq_product(dims),
    decreases coords.len(),
{
    if coords.len() == 0 {
        assert(seq_product(dims) == 1);
    } else {
        assert(forall|i: int| 0 <= i < coords.skip(1).len()
            ==> coords.skip(1)[i] < dims.skip(1)[i]);
        lemma_flat_index_in_bounds(dims.skip(1), coords.skip(1));
        assert(coords[0] + (dims[0] as int) * flat_index(dims.skip(1), coords.skip(1))
            < (dims[0] as int) * seq_product(dims.skip(1))) by (nonlinear_arith)
            requires
                0 <= (coords[0] as int) < (dims[0] as int),
                0 <= flat_index(dims.skip(1), coords.skip(1)) < seq_product(dims.skip(1)),
        ;
    }
}

/// Distinct tuples that stay strictly below their axes' stored sizes map to
/// distinct flat offsets.
proof fn lemma_flat_index_injective(dims: Seq<usize>, c1: Seq<usize>, c2: Seq<usize>)
    requires
        c1.len() == dims.len(),
        c2.len() == dims.len(),
        forall|i: int| 0 <= i < c1.len() ==> c1[i] < dims[i],
        forall|i: int| 0 <= i < c2.len() ==> c2[i] < dims[i],
        c1 != c2,
    ensures
        flat_index(dims, c1) != flat_index(dims, c2),
    decreases c1.len(),
{
    if c1.len() == 0 {
        assert(c1 =~= c2);
    } else {
        let d0 = dims[0] as int;
        let f1 = flat_index(dims.skip(1), c1.skip(1));
        let f2 = flat_index(dims.skip(1), c2.skip(1));
        lemma_flat_index_nonneg(dims.skip(1), c1.skip(1));
        lemma_flat_index_nonneg(dims.skip(1), c2.skip(1));
        if flat_index(dims, c1) == flat_index(dims, c2) {
            assert(c1[0] + d0 * f1 == c2[0] + d0 * f2);
            assert(c1[0] == c2[0] && f1 == f2) by (nonlinear_arith)
                requires
                    0 <= (c1[0] as int) < d0,
                    0 <= (c2[0] as int) < d0,
                    0 <= f1,
                    0 <= f2,
                    c1[0] + d0 * f1 == c2[0] + d0 * f2,
            ;
            if c1.skip(1) =~= c2.skip(1) {
                assert forall|i: int| 0 <= i < c1.len() implies c1[i] == c2[i] by {
                    if i > 0 {
                        assert(c1[i] == c1.skip(1)[i - 1]);
                        assert(c2[i] == c2.skip(1)[i - 1]);
                    }
                };
                assert(c1 =~= c2);
            } else {
                assert(forall|i: int| 0 <= i < c1.skip(1).len()
                    ==> c1.skip(1)[i] < dims.skip(1)[i]);
                assert(forall|i: int| 0 <= i < c2.skip(1).len()
                    ==> c2.skip(1)[i] < dims.skip(1)[i]);
                lemma_flat_index_injective(dims.skip(1), c1.skip(1), c2.skip(1));
            }
            assert(false);
        }
    }
}

/// Some component, among the positions the two sequences share, exceeds its
/// axis's stored size.
pub open spec fn spec_out_of_range(dims: Seq<usize>, coords: Seq<usize>) -> bool {
    exists|i: int| 0 <= i < coords.len() && i < dims.len() && coords[i] > dims[i]
}

/// The exact outcome of validating a coordinate tuple: a length mismatch is
/// reported first and short-circuits; only then are components compared, each
/// against its axis's stored size, rejecting strictly greater ones.
pub open spec fn spec_check(dims: Seq<usize>, coords: Seq<usize>) -> Result<(), DimError> {
    if coords.len() != dims.len() {
        Err(DimError::IndexMismatch)
    } else if spec_out_of_range(dims, coords) {
        Err(DimError::IndexOutOfRange)
    } else {
        Ok(())
    }
}

/// If validation accepts the tuple, its flat offset lies inside the store.
///
/// Validation admits one index past each axis's extent (a component equal to
/// the stored size passes the strict comparison), so an accepted tuple near
/// the upper corner of the grid can map to an offset at or past the store's
/// length.  Accesses are specified only for tuples that stay inside it.
pub open spec fn offset_fits(dims: Seq<usize>, coords: Seq<usize>) -> bool {
    spec_check(dims, coords) == Ok::<(), DimError>(())
        ==> flat_index(dims, coords) < seq_product(dims)
}

/// A dense multi-dimensional container: a shape of per-axis stored sizes and
/// a flat store holding one element per addressable position.
#[derive(Debug, Clone)]
pub struct MultiDim<T: Clone> {
    dimensions: Vec<usize>,
    data: Vec<T>,
}

impl<T: Clone> MultiDim<T> {
    /// The stored per-axis sizes, each one more than the extent it was built
    /// from.
    pub closed spec fn shape(&self) -> Seq<usize> {
        self.dimensions@
    }

    /// The flat store, ordered by ascending flat offset.
    pub closed spec fn elements(&self) -> Seq<T> {
        self.data@
    }

    /// Structural invariant: every stored size is positive and the store
    /// holds exactly one element per addressable position.
    pub open spec fn wf(&self) -> bool {
        &&& forall|i: int| 0 <= i < self.shape().len() ==> self.shape()[i] >= 1
        &&& self.elements().len() == seq_product(self.shape())
    }

    /// Builds a grid from one extent per axis, every element a clone of
    /// `init`.  Each axis stores size `extent + 1`; zero extents are not
    /// accepted, and the element count must fit the machine word.
    #[verifier::loop_isolation(false)]
    pub fn new(dim: &[usize], init: T) -> (r: Self)
        requires
            forall|i: int| 0 <= i < dim@.len() ==> dim@[i] >= 1,
            extents_product(dim@) <= usize::MAX,
        ensures
            r.wf(),
            r.shape().len() == dim@.len(),
            forall|i: int| 0 <= i < dim@.len() ==> r.shape()[i] == dim@[i] + 1,
            r.elements().len() == extents_product(dim@),
            forall|k: int| 0 <= k < r.elements().len() ==> cloned(init, #[trigger] r.elements()[k]),
    {
        let mut vect_dim: Vec<usize> = Vec::new();
        let mut i: usize = 0;
        while i < dim.len()
            invariant
                i <= dim@.len(),
                vect_dim@.len() == i,
                forall|j: int| 0 <= j < i ==> vect_dim@[j] == dim@[j] + 1,
            decreases dim@.len() - i,
        {
            proof {
                lemma_extents_product_factor(dim@, i as int);
            }
            vect_dim.push(dim[i] + 1);
            i = i + 1;
        }
        proof {
            lemma_sizes_product(dim@, vect_dim@);
        }
        let mut length: usize = 1;
        let mut j: usize = 0;
        while j < vect_dim.len()
            invariant
                j <= vect_dim@.len(),
                length == seq_product(vect_dim@.take(j as int)),
            decreases vect_dim@.len() - j,
        {
            proof {
                lemma_seq_product_take_succ(vect_dim@, j as int);
                lemma_seq_product_prefix_le(vect_dim@, j as int + 1);
            }
            length = length * vect_dim[j];
            j = j + 1;
        }
        proof {
            assert(vect_dim@.take(vect_dim@.len() as int) =~= vect_dim@);
        }
        MultiDim { dimensions: vect_dim, data: vec![init; length] }
    }

    /// Reports whether some shared-position component exceeds its axis.
    #[verifier::loop_isolation(false)]
    fn out_of_range(&self, dim: &[usize]) -> (r: bool)
        ensures
            r == spec_out_of_range(self.shape(), dim@),
    {
        let bound = if dim.len() < self.dimensions.len() {
            dim.len()
        } else {
            self.dimensions.len()
        };
        let mut i: usize = 0;
        while i < bound
            invariant
                i <= bound,
                forall|j: int| 0 <= j < i ==> !(dim@[j] > self.shape()[j]),
            decreases bound - i,
        {
            if dim[i] > self.dimensions[i] {
                return true;
            }
            i = i + 1;
        }
        false
    }

    /// Validates a tuple: arity first, then per-axis range.
    fn check(&self, dim: &[usize]) -> (r: Result<(), DimError>)
        ensures
            r == spec_check(self.shape(), dim@),
    {
        if self.dimensions.len() != dim.len() {
            return Err(DimError::IndexMismatch);
        }
        if self.out_of_range(dim) {
            return Err(DimError::IndexOutOfRange);
        }
        Ok(())
    }

    /// Computes the flat offset of an already validated tuple by mixed-radix
    /// accumulation, each axis's own stored size growing the multiplier.
    #[verifier::loop_isolation(false)]
    fn index(&self, dim: &[usize]) -> (r: usize)
        requires
            self.wf(),
            dim@.len() == self.shape().len(),
            flat_index(self.shape(), dim@) < seq_product(self.shape()),
        ensures
            r == flat_index(self.shape(), dim@),
    {
        let ghost dims = self.shape();
        let ghost total = flat_index(dims, dim@);
        let _store_len = self.data.len();
        proof {
            lemma_flat_index_nonneg(dims, dim@);
            assert(_store_len == seq_product(dims));
            assert(dims.skip(0) =~= dims);
            assert(dim@.skip(0) =~= dim@);
            assert(dims.take(0) =~= Seq::<usize>::empty());
            assert(seq_product(Seq::<usize>::empty()) == 1);
        }
        let mut n: usize = 0;
        let mut mult: usize = 1;
        let mut i: usize = 0;
        while i < dim.len()
            invariant
                i <= dim@.len(),
                mult == seq_product(dims.take(i as int)),
                n + mult * flat_index(dims.skip(i as int), dim@.skip(i as int)) == total,
            decreases dim@.len() - i,
        {
            let ghost k = i as int;
            let ghost fk = flat_index(dims.skip(k), dim@.skip(k));
            let ghost fk1 = flat_index(dims.skip(k + 1), dim@.skip(k + 1));
            proof {
                assert(dims.skip(k).skip(1) =~= dims.skip(k + 1));
                assert(dim@.skip(k).skip(1) =~= dim@.skip(k + 1));
                assert(fk == dim@[k] + (dims[k] as int) * fk1);
                lemma_flat_index_nonneg(dims.skip(k + 1), dim@.skip(k + 1));
                lemma_seq_product_take_succ(dims, k);
                lemma_seq_product_prefix_le(dims, k + 1);
                assert(mult * (dim@[k] + (dims[k] as int) * fk1)
                    == mult * dim@[k] + (mult * (dims[k] as int)) * fk1) by (nonlinear_arith);
                assert((mult * (dims[k] as int)) * fk1 >= 0) by (nonlinear_arith)
                    requires
                        mult >= 0,
                        dims[k] >= 0,
                        fk1 >= 0,
                ;
                assert(n + mult * dim@[k] + (mult * (dims[k] as int)) * fk1 == total);
                assert(n + mult * dim@[k] <= total);
                assert(dim@[k] * (mult as int) == mult * dim@[k]) by (nonlinear_arith);
                assert(mult * (dims[k] as int) == seq_product(dims.take(k + 1)));
                assert(mult * (dims[k] as int) <= seq_product(dims));
            }
            n = n + dim[i] * mult;
            mult = mult * self.dimensions[i];
            i = i + 1;
        }
        proof {
            assert(dims.skip(dims.len() as int) =~= Seq::<usize>::empty());
            assert(dim@.skip(dim@.len() as int) =~= Seq::<usize>::empty());
        }
        n
    }

    /// Reads the element at a coordinate tuple, or reports why the tuple was
    /// rejected.  No side effects.
    pub fn get(&self, dim: &[usize]) -> (r: Result<&T, DimError>)
        requires
            self.wf(),
            offset_fits(self.shape(), dim@),
        ensures
            match spec_check(self.shape(), dim@) {
                Ok(()) => (r matches Ok(v) && *v == self.elements()[flat_index(
                    self.shape(),
                    dim@,
                )]),
                Err(e) => r == Err::<&T, DimError>(e),
            },
    {
        match self.check(dim) {
            Ok(_) => {
                proof {
                    lemma_flat_index_nonneg(self.shape(), dim@);
                }
                let i = self.index(dim);
                Ok(&self.data[i])
            },
            Err(e) => Err(e),
        }
    }

    /// Overwrites the element at a coordinate tuple, or reports why the tuple
    /// was rejected and leaves every element unchanged.
    pub fn set(&mut self, dim: &[usize], val: T) -> (r: Result<(), DimError>)
        requires
            old(self).wf(),
            offset_fits(old(self).shape(), dim@),
        ensures
            final(self).wf(),
            final(self).shape() == old(self).shape(),
            match spec_check(old(self).shape(), dim@) {
                Ok(()) => (r == Ok::<(), DimError>(()) && final(self).elements() == old(
                    self,
                ).elements().update(flat_index(old(self).shape(), dim@), val)),
                Err(e) => (r == Err::<(), DimError>(e) && final(self).elements() == old(
                    self,
                ).elements()),
            },
    {
        match self.check(dim) {
            Ok(_) => {
                proof {
                    lemma_flat_index_nonneg(self.shape(), dim@);
                }
                let i = self.index(dim);
                self.data[i] = val;
                Ok(())
            },
            Err(e) => Err(e),
        }
    }
}

/// Round trip: when validation accepts a tuple whose flat offset lies inside
/// the store, writing `v` there (what a successful `set` does to the store)
/// makes a read of the same tuple (what a successful `get` returns) yield
/// exactly `v`.
pub proof fn lemma_set_then_get_round_trip<T: Clone>(
    before: MultiDim<T>,
    after: MultiDim<T>,
    c: Seq<usize>,
    v: T,
)
    requires
        before.wf(),
        spec_check(before.shape(), c) == Ok::<(), DimError>(()),
        flat_index(before.shape(), c) < seq_product(before.shape()),
        after.shape() == before.shape(),
        after.elements() == before.elements().update(flat_index(before.shape(), c), v),
    ensures
        spec_check(after.shape(), c) == Ok::<(), DimError>(()),
        after.elements()[flat_index(after.shape(), c)] == v,
{
    lemma_flat_index_nonneg(before.shape(), c);
}

/// Isolation: writing at one tuple leaves the element read through any other
/// tuple unchanged, for tuples whose components all stay strictly below their
/// axes' stored sizes (on those the flat encoding is injective).
pub proof fn lemma_set_isolation<T: Clone>(
    before: MultiDim<T>,
    after: MultiDim<T>,
    c1: Seq<usize>,
    c2: Seq<usize>,
    v: T,
)
    requires
        before.wf(),
        c1.len() == before.shape().len(),
        c2.len() == before.shape().len(),
        forall|i: int| 0 <= i < c1.len() ==> c1[i] < before.shape()[i],
        forall|i: int| 0 <= i < c2.len() ==> c2[i] < before.shape()[i],
        c1 != c2,
        after.shape() == before.shape(),
        after.elements() == before.elements().update(flat_index(before.shape(), c1), v),
    ensures
        after.elements()[flat_index(after.shape(), c2)]
            == before.elements()[flat_index(before.shape(), c2)],
{
    lemma_flat_index_in_bounds(before.shape(), c1);
    lemma_flat_index_in_bounds(before.shape(), c2);
    lemma_flat_index_injective(before.shape(), c1, c2);
}

/// Arity precedence: a tuple of the wrong length is always rejected as
/// `IndexMismatch`, whatever values it holds; no range check takes part.
pub proof fn lemma_arity_mismatch_first(dims: Seq<usize>, c: Seq<usize>)
    requires
        c.len() != dims.len(),
    ensures
        spec_check(dims, c) == Err::<(), DimError>(DimError::IndexMismatch),
{
}

/// Range boundary, accepting side: a tuple whose every component is at most
/// its axis's extent (strictly below the stored size) is accepted, and its
/// flat offset lies inside the store, so the access is owed success.
pub proof fn lemma_extent_coords_accepted(dims: Seq<usize>, c: Seq<usize>)
    requires
        c.len() == dims.len(),
        forall|i: int| 0 <= i < c.len() ==> c[i] < dims[i],
    ensures
        spec_check(dims, c) == Ok::<(), DimError>(()),
        offset_fits(dims, c),
        0 <= flat_index(dims, c) < seq_product(dims),
{
    lemma_flat_index_in_bounds(dims, c);
}

/// Range boundary, rejecting side: with matching arity, a component strictly
/// above its axis's stored size is rejected as `IndexOutOfRange`.
pub proof fn lemma_component_above_size_rejected(dims: Seq<usize>, c: Seq<usize>, i: int)
    requires
        c.len() == dims.len(),
        0 <= i < c.len(),
        c[i] > dims[i],
    ensures
        spec_check(dims, c) == Err::<(), DimError>(DimError::IndexOutOfRange),
{
    assert(spec_out_of_range(dims, c));
}

} // verus!
