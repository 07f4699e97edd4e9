//! The host-value model: native arrays (typed buffers with a shape) and
//! dynamically typed values (scalars, arrays, or nested lists).

use crate::num::{elem_fits, ElemType, Num};
use vstd::prelude::*;

verus! {

/// Spec-level picture of an array: element type, shape, layout flag, and
/// elements in row-major order.
#[verifier::ext_equal]
pub ghost struct ArrModel {
    pub dtype: ElemType,
    pub shape: Seq<usize>,
    pub c_order: bool,
    pub data: Seq<Num>,
}

/// Number of elements an array of shape `s` holds; the empty shape (rank
/// zero) holds exactly one element.
pub open spec fn shape_prod(s: Seq<usize>) -> nat
    decreases s.len(),
{
    if s.len() == 0 {
        1
    } else {
        (s[0] * shape_prod(s.drop_first())) as nat
    }
}

/// Well-formedness of an array: the buffer length equals the product of the
/// extents and every element is well typed for the array's element type.
pub open spec fn arr_wf(m: ArrModel) -> bool {
    &&& m.data.len() == shape_prod(m.shape)
    &&& forall|i: int| 0 <= i < m.data.len() ==> elem_fits(m.dtype, #[trigger] m.data[i])
}

/// A native array owned by the host: a typed buffer together with its
/// shape, and a flag saying whether the buffer is contiguous in row-major
/// order.
#[derive(Debug)]
pub struct NativeArray {
    pub dtype: ElemType,
    pub shape: Vec<usize>,
    pub c_order: bool,
    pub data: Vec<Num>,
}

impl View for NativeArray {
    type V = ArrModel;

    open spec fn view(&self) -> ArrModel {
        ArrModel {
            dtype: self.dtype,
            shape: self.shape@,
            c_order: self.c_order,
            data: self.data@,
        }
    }
}

/// An extent of zero anywhere makes the whole product zero.
proof fn lemma_shape_prod_zero(s: Seq<usize>, j: int)
    requires
        0 <= j < s.len(),
        s[j] == 0,
    ensures
        shape_prod(s) == 0,
    decreases s.len(),
{
    if j == 0 {
        assert(0 * shape_prod(s.drop_first()) == 0) by (nonlinear_arith);
    } else {
        lemma_shape_prod_zero(s.drop_first(), j - 1);
        assert(s[0] * 0 == 0) by (nonlinear_arith);
    }
}

/// Dropping leading extents that are all at least one never increases the
/// product.
proof fn lemma_shape_prod_suffix(s: Seq<usize>, i: int)
    requires
        0 <= i <= s.len(),
        forall|j: int| 0 <= j < i ==> s[j] >= 1,
    ensures
        shape_prod(s) >= shape_prod(s.subrange(i, s.len() as int)),
    decreases i,
{
    if i == 0 {
        assert(s.subrange(0, s.len() as int) =~= s);
    } else {
        let d = s.drop_first();
        assert forall|j: int| 0 <= j < i - 1 implies d[j] >= 1 by {
            assert(d[j] == s[j + 1]);
        }
        lemma_shape_prod_suffix(d, i - 1);
        assert(d.subrange(i - 1, d.len() as int) =~= s.subrange(i, s.len() as int));
        let ghost a = s[0] as int;
        let ghost b = shape_prod(d) as int;
        let ghost c = shape_prod(s.subrange(i, s.len() as int)) as int;
        assert(a * b >= c) by (nonlinear_arith)
            requires
                a >= 1,
                b >= 0,
                b >= c;
    }
}

impl NativeArray {
    pub open spec fn wf(&self) -> bool {
        arr_wf(self@)
    }

    /// Allocates a host array from a shape and owned elements, after
    /// checking that the element count equals the product of the extents
    /// and that every element is well typed for the element type.
    pub fn new(dtype: ElemType, shape: Vec<usize>, c_order: bool, data: Vec<Num>) -> (r: Option<
        NativeArray,
    >)
        ensures
            match r {
                Some(a) => a@ == (ArrModel { dtype, shape: shape@, c_order, data: data@ })
                    && a.wf(),
                None => !arr_wf(ArrModel { dtype, shape: shape@, c_order, data: data@ }),
            },
    {
        proof {
            vstd::std_specs::vec::axiom_spec_len(&shape);
            vstd::std_specs::vec::axiom_spec_len(&data);
        }
        let mut p: usize = 1;
        let mut i: usize = shape.len();
        proof {
            assert(shape@.subrange(i as int, shape@.len() as int) =~= Seq::<usize>::empty());
        }
        while i > 0
            invariant
                i <= shape@.len(),
                shape@.len() <= usize::MAX,
                data@.len() <= usize::MAX,
                p as nat == shape_prod(shape@.subrange(i as int, shape@.len() as int)),
            decreases i,
        {
            let e = shape[i - 1];
            match e.checked_mul(p) {
                Some(np) => {
                    proof {
                        assert(shape@.subrange(i - 1, shape@.len() as int).drop_first()
                            =~= shape@.subrange(i as int, shape@.len() as int));
                    }
                    p = np;
                },
                None => {
                    // the product from here down already exceeds what any
                    // buffer can hold; the whole product does too, unless a
                    // leading extent is zero
                    proof {
                        assert(shape@.subrange(i - 1, shape@.len() as int).drop_first()
                            =~= shape@.subrange(i as int, shape@.len() as int));
                    }
                    let mut j: usize = 0;
                    while j < i - 1
                        invariant
                            j <= i - 1,
                            1 <= i <= shape@.len(),
                            forall|k: int| 0 <= k < j ==> shape@[k] >= 1,
                        decreases i - j,
                    {
                        if shape[j] == 0 {
                            proof {
                                lemma_shape_prod_zero(shape@, j as int);
                            }
                            if data.len() == 0 {
                                let a = NativeArray { dtype, shape, c_order, data };
                                return Some(a);
                            } else {
                                return None;
                            }
                        }
                        j = j + 1;
                    }
                    proof {
                        lemma_shape_prod_suffix(shape@, i - 1);
                    }
                    return None;
                },
            }
            i = i - 1;
        }
        proof {
            assert(shape@.subrange(0, shape@.len() as int) =~= shape@);
        }
        if p != data.len() {
            return None;
        }
        let mut k: usize = 0;
        while k < data.len()
            invariant
                k <= data@.len(),
                forall|x: int| 0 <= x < k ==> elem_fits(dtype, #[trigger] data@[x]),
            decreases data@.len() - k,
        {
            if !crate::num::elem_ok(dtype, data[k]) {
                return None;
            }
            k = k + 1;
        }
        Some(NativeArray { dtype, shape, c_order, data })
    }
}

/// A dynamically typed host value: a bare number, a native array, or a
/// (possibly nested) list of further values.
#[derive(Debug)]
pub enum Value {
    Scalar(Num),
    Array(NativeArray),
    List(Vec<Value>),
}

impl Value {
    /// Every array inside the value is well formed.
    pub open spec fn wf(&self) -> bool
        decreases self, 0int,
    {
        match self {
            Value::Scalar(_) => true,
            Value::Array(a) => a.wf(),
            Value::List(items) => all_wf(items@, items@.len() as int),
        }
    }
}

/// Well-formedness of the first `n` values of a sequence.
pub open spec fn all_wf(items: Seq<Value>, n: int) -> bool
    decreases items, n,
{
    if n <= 0 || n > items.len() {
        true
    } else {
        all_wf(items, n - 1) && items[n - 1].wf()
    }
}

/// Each value of a well-formed prefix is well formed.
pub proof fn lemma_all_wf_index(items: Seq<Value>, n: int, j: int)
    requires
        all_wf(items, n),
        0 <= j < n,
        n <= items.len(),
    ensures
        items[j].wf(),
    decreases n,
{
    if j < n - 1 {
        lemma_all_wf_index(items, n - 1, j);
    }
}

} // verus!
