//! The ownership-tagged extraction result: a read-only borrow of the host
//! array when the input already matched, or a freshly built owned array.

use crate::num::Num;
use crate::value::{arr_wf, ArrModel, NativeArray};
use vstd::prelude::*;

verus! {

/// Spec-level picture of an extraction result: whether the data is
/// borrowed from the input, and the array it denotes.
#[verifier::ext_equal]
pub ghost struct Extracted {
    pub borrowed: bool,
    pub arr: ArrModel,
}

/// The ownership tag. `PyRef` references memory owned by the input value
/// and performs no copy; `Owned` holds a freshly allocated buffer that may
/// outlive the input.
#[derive(Debug)]
pub enum ArrayLike<'py> {
    PyRef(&'py NativeArray),
    Owned(NativeArray),
}

/// An array extracted from a host value, tagged with its ownership.
#[derive(Debug)]
pub struct PyArrayLike<'py>(pub ArrayLike<'py>);

impl<'py> PyArrayLike<'py> {
    /// The extraction this handle denotes.
    pub open spec fn model(&self) -> Extracted {
        match self.0 {
            ArrayLike::PyRef(a) => Extracted { borrowed: true, arr: a@ },
            ArrayLike::Owned(a) => Extracted { borrowed: false, arr: a@ },
        }
    }
}

/// Copies the extents of `v` from `from` (inclusive) to `to` (exclusive).
pub fn copy_usize_range(v: &Vec<usize>, from: usize, to: usize) -> (r: Vec<usize>)
    requires
        from <= to <= v@.len(),
    ensures
        r@ == v@.subrange(from as int, to as int),
{
    let mut out: Vec<usize> = Vec::new();
    let mut i: usize = from;
    while i < to
        invariant
            from <= i <= to <= v@.len(),
            out@ == v@.subrange(from as int, i as int),
        decreases to - i,
    {
        out.push(v[i]);
        proof {
            assert(out@ =~= v@.subrange(from as int, (i + 1) as int));
        }
        i = i + 1;
    }
    out
}

/// Copies the elements of `v` from `from` (inclusive) to `to` (exclusive).
pub fn copy_num_range(v: &Vec<Num>, from: usize, to: usize) -> (r: Vec<Num>)
    requires
        from <= to <= v@.len(),
    ensures
        r@ == v@.subrange(from as int, to as int),
{
    let mut out: Vec<Num> = Vec::new();
    let mut i: usize = from;
    while i < to
        invariant
            from <= i <= to <= v@.len(),
            out@ == v@.subrange(from as int, i as int),
        decreases to - i,
    {
        out.push(v[i]);
        proof {
            assert(out@ =~= v@.subrange(from as int, (i + 1) as int));
        }
        i = i + 1;
    }
    out
}

fn copy_array(a: &NativeArray, standard: bool) -> (r: NativeArray)
    ensures
        r@ == (ArrModel { c_order: if standard { true } else { a@.c_order }, ..a@ }),
{
    let shape = copy_usize_range(&a.shape, 0, a.shape.len());
    let data = copy_num_range(&a.data, 0, a.data.len());
    proof {
        assert(a.shape@.subrange(0, a.shape@.len() as int) =~= a.shape@);
        assert(a.data@.subrange(0, a.data@.len() as int) =~= a.data@);
    }
    NativeArray {
        dtype: a.dtype,
        shape,
        c_order: if standard {
            true
        } else {
            a.c_order
        },
        data,
    }
}

impl<'py> PyArrayLike<'py> {
    /// The referenced array is well formed, and an owned buffer is always
    /// in standard (row-major contiguous) order.
    pub open spec fn wf(&self) -> bool {
        arr_wf(self.model().arr) && (!self.model().borrowed ==> self.model().arr.c_order)
    }

    /// Consumes `self` and moves its data into an owned array: a borrowed
    /// handle performs exactly one copy into fresh standard-order storage,
    /// an owned handle returns its storage without copying.
    pub fn into_owned_array(self) -> (r: NativeArray)
        requires
            self.wf(),
        ensures
            r@ == (ArrModel { c_order: true, ..self.model().arr }),
            r.wf(),
    {
        match self.0 {
            ArrayLike::PyRef(a) => copy_array(a, true),
            ArrayLike::Owned(a) => a,
        }
    }

    /// Consumes `self` and presents it back to the host: a borrowed handle
    /// hands back the array it references, an owned handle transfers its
    /// freshly built buffer to the host.
    pub fn into_pyarray(self) -> (r: NativeArray)
        requires
            self.wf(),
        ensures
            r@ == self.model().arr,
            r.wf(),
    {
        match self.0 {
            ArrayLike::PyRef(a) => copy_array(a, false),
            ArrayLike::Owned(a) => a,
        }
    }

    /// A read-only view of the underlying array, valid for the duration of
    /// the borrow.
    pub fn view(&self) -> (r: &NativeArray)
        ensures
            r@ == self.model().arr,
    {
        match &self.0 {
            ArrayLike::PyRef(a) => *a,
            ArrayLike::Owned(a) => a,
        }
    }

    /// The elements as a flat read-only slice in row-major order, only when
    /// the underlying buffer is already contiguous in that order; this is a
    /// cheap probe and never copies.
    pub fn as_slice(&self) -> (r: Option<&[Num]>)
        ensures
            self.model().arr.c_order ==> (r matches Some(s) && s@ == self.model().arr.data),
            !self.model().arr.c_order ==> r is None,
    {
        match &self.0 {
            ArrayLike::PyRef(a) => if a.c_order {
                Some(a.data.as_slice())
            } else {
                None
            },
            ArrayLike::Owned(a) => if a.c_order {
                Some(a.data.as_slice())
            } else {
                None
            },
        }
    }

    /// The concrete shape, one extent per axis.
    pub fn dim(&self) -> (r: Vec<usize>)
        ensures
            r@ == self.model().arr.shape,
    {
        let shape = match &self.0 {
            ArrayLike::PyRef(a) => copy_usize_range(&a.shape, 0, a.shape.len()),
            ArrayLike::Owned(a) => copy_usize_range(&a.shape, 0, a.shape.len()),
        };
        proof {
            assert(self.model().arr.shape.subrange(0, self.model().arr.shape.len() as int) =~= self.model().arr.shape);
        }
        shape
    }
}

} // verus!
