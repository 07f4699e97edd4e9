//! The engine's laws: zero-copy identity, round trip against an
//! independent reconstruction of the input's nested structure, rank
//! agreement, and rejection of inexact casts.

use crate::array_like::Extracted;
use crate::extract::{
    all_cast, all_scalar, arr_rows_data, arr_rows_ok, casted_seq, coerce, coerce_arr, items_data,
    items_ok, items_same_shape, lemma_arr_rows_ok_index, lemma_coerce_arr_wf, lemma_coerce_wf,
    lemma_items_ok_index, row_seq, scalar_seq, scalar_val,
};
use crate::num::{cast_num, elem_fits, float_as_int, is_int_type, ElemType, Num};
use crate::rank::Rank;
use crate::value::{all_wf, lemma_all_wf_index, shape_prod, Value};
use vstd::prelude::*;

verus! {

/// The shape the nested structure of a host value denotes: a native
/// array's own shape, no extents for a bare scalar, and one leading extent
/// per nesting level of a list.
pub open spec fn nested_shape(v: Value) -> Seq<usize>
    decreases v, 0int,
{
    match v {
        Value::Scalar(_) => Seq::empty(),
        Value::Array(a) => a.shape@,
        Value::List(items) => seq![items@.len() as usize] + if items@.len() == 0 {
            Seq::<usize>::empty()
        } else {
            nested_shape(items@[0])
        },
    }
}

/// The row-major elements the nested structure denotes after safely
/// casting every number to `t` (meaningful when every cast succeeds).
pub open spec fn flat_data(v: Value, t: ElemType) -> Seq<Num>
    decreases v, 0int,
{
    match v {
        Value::Scalar(n) => seq![cast_num(n, t)->Some_0],
        Value::Array(a) => casted_seq(a.data@, t),
        Value::List(items) => flat_items(items@, t, items@.len() as int),
    }
}

/// Concatenation of the flattened data of items `0 .. i`.
pub open spec fn flat_items(items: Seq<Value>, t: ElemType, i: int) -> Seq<Num>
    decreases items, i,
{
    if i <= 0 || i > items.len() {
        Seq::empty()
    } else {
        flat_items(items, t, i - 1) + flat_data(items[i - 1], t)
    }
}

/// Whether every number anywhere in the value casts safely to `t`.
pub open spec fn value_casts(v: Value, t: ElemType) -> bool
    decreases v, 0int,
{
    match v {
        Value::Scalar(n) => cast_num(n, t) is Some,
        Value::Array(a) => all_cast(a.data@, t),
        Value::List(items) => items_cast(items@, t, items@.len() as int),
    }
}

/// Whether every number of items `0 .. n` casts safely to `t`.
pub open spec fn items_cast(items: Seq<Value>, t: ElemType, n: int) -> bool
    decreases items, n,
{
    if n <= 0 || n > items.len() {
        true
    } else {
        items_cast(items, t, n - 1) && value_casts(items[n - 1], t)
    }
}

/// A safe cast leaves a value that already fits the target unchanged.
pub proof fn lemma_cast_identity(n: Num, t: ElemType)
    requires
        elem_fits(t, n),
    ensures
        cast_num(n, t) == Some(n),
{
}

/// Exactness on arrays: any successful extraction returns exactly the
/// elementwise safe cast of the source buffer, every source element
/// casts, and the resulting rank satisfies the descriptor.
proof fn lemma_coerce_arr_exact(
    d: ElemType,
    s: Seq<usize>,
    co: bool,
    data: Seq<Num>,
    t: ElemType,
    r: Rank,
)
    requires
        data.len() == shape_prod(s),
        forall|i: int| 0 <= i < data.len() ==> elem_fits(d, #[trigger] data[i]),
    ensures
        coerce_arr(d, s, co, data, t, r) matches Some(ex) ==> {
            &&& ex.arr.data == casted_seq(data, t)
            &&& all_cast(data, t)
            &&& r.spec_matches_len(ex.arr.shape.len())
        },
    decreases s.len(), 0int,
{
    let q = shape_prod(s.drop_first()) as int;
    let r2 = r.spec_smaller();
    lemma_coerce_arr_wf(d, s, co, data, t, r);
    if d == t && r.spec_matches_len(s.len()) {
        assert forall|i: int| 0 <= i < data.len() implies (#[trigger] cast_num(data[i], t))
            == Some(data[i]) by {
            lemma_cast_identity(data[i], t);
        }
        assert(data =~= casted_seq(data, t));
    } else if r.spec_allows(0) && s.len() == 0 && cast_num(data[0], t) is Some {
        assert(seq![cast_num(data[0], t)->Some_0] =~= casted_seq(data, t));
    } else if r.spec_allows(1) && s.len() == 1 && all_cast(data, t) {
    } else if r.spec_deep() && s.len() >= 1 && s[0] > 0 && arr_rows_ok(
        d,
        s.drop_first(),
        co,
        data,
        q,
        t,
        r2,
        s[0] as int,
    ) {
        let s2 = s.drop_first();
        let ghost n0 = s[0] as int;
        assert(data.len() == n0 * q);
        lemma_arr_rows_exact(d, s2, co, data, q, t, r2, n0);
        assert(data.subrange(0, n0 * q) =~= data);
        // rank: the stacked shape is one extent plus the rows' shape
        lemma_arr_rows_ok_index(d, s2, co, data, q, t, r2, n0, 0);
        assert(0 * q == 0 && 1 * q == q && q <= n0 * q) by (nonlinear_arith)
            requires
                q >= 0,
                n0 >= 1;
        let row0 = row_seq(data, q, 0);
        assert(row0.len() == q);
        assert forall|x: int| 0 <= x < row0.len() implies elem_fits(d, #[trigger] row0[x]) by {
            assert(row0[x] == data[x]);
        }
        lemma_coerce_arr_exact(d, s2, co, row0, t, r2);
        lemma_coerce_arr_wf(d, s2, co, row0, t, r2);
    } else {
    }
}

/// Exactness of the stacked prefix of an array's rows.
proof fn lemma_arr_rows_exact(
    d: ElemType,
    s2: Seq<usize>,
    co: bool,
    data: Seq<Num>,
    q: int,
    t: ElemType,
    r2: Rank,
    i: int,
)
    requires
        q == shape_prod(s2),
        0 <= i,
        i * q <= data.len(),
        forall|x: int| 0 <= x < data.len() ==> elem_fits(d, #[trigger] data[x]),
        arr_rows_ok(d, s2, co, data, q, t, r2, i),
    ensures
        arr_rows_data(d, s2, co, data, q, t, r2, i) == casted_seq(data.subrange(0, i * q), t),
        all_cast(data.subrange(0, i * q), t),
    decreases s2.len(), i,
{
    if i > 0 {
        assert(0 <= (i - 1) * q && (i - 1) * q <= i * q && i * q - (i - 1) * q == q)
            by (nonlinear_arith)
            requires
                q >= 0,
                i >= 1;
        lemma_arr_rows_exact(d, s2, co, data, q, t, r2, i - 1);
        let row = row_seq(data, q, i - 1);
        assert(row.len() == q);
        assert forall|x: int| 0 <= x < row.len() implies elem_fits(d, #[trigger] row[x]) by {
            assert(row[x] == data[(i - 1) * q + x]);
        }
        lemma_coerce_arr_exact(d, s2, co, row, t, r2);
        lemma_coerce_arr_wf(d, s2, co, row, t, r2);
        let prev = data.subrange(0, (i - 1) * q);
        let whole = data.subrange(0, i * q);
        assert(casted_seq(prev, t) + casted_seq(row, t) =~= casted_seq(whole, t));
        assert forall|x: int| 0 <= x < whole.len() implies (#[trigger] cast_num(whole[x], t))
            is Some by {
            if x < (i - 1) * q {
                assert(whole[x] == prev[x]);
                assert(cast_num(prev[x], t) is Some);
            } else {
                assert(whole[x] == row[x - (i - 1) * q]);
                assert(cast_num(row[x - (i - 1) * q], t) is Some);
            }
        }
    } else {
        assert(i * q == 0) by (nonlinear_arith)
            requires
                i == 0;
        assert(data.subrange(0, 0) =~= Seq::<Num>::empty());
        assert(casted_seq(data.subrange(0, 0), t) =~= Seq::<Num>::empty());
    }
}

/// Exactness on arbitrary values: a successful extraction carries exactly
/// the shape of the input's nested structure and the safe casts of its
/// numbers in row-major order, every number casts, and the resulting rank
/// satisfies the descriptor.
pub proof fn lemma_coerce_exact(v: Value, t: ElemType, r: Rank)
    requires
        v.wf(),
    ensures
        coerce(v, t, r) matches Some(ex) ==> {
            &&& ex.arr.shape == nested_shape(v)
            &&& ex.arr.data == flat_data(v, t)
            &&& value_casts(v, t)
            &&& r.spec_matches_len(ex.arr.shape.len())
        },
    decreases v, 0int,
{
    let r2 = r.spec_smaller();
    lemma_coerce_wf(v, t, r);
    match v {
        Value::Array(a) => {
            lemma_coerce_arr_exact(a.dtype, a.shape@, a.c_order, a.data@, t, r);
            lemma_coerce_arr_wf(a.dtype, a.shape@, a.c_order, a.data@, t, r);
        },
        Value::Scalar(n) => {
        },
        Value::List(items) => {
            vstd::std_specs::vec::axiom_spec_len(&items);
            if r.spec_allows(1) && all_scalar(items@, t) {
                let ex = coerce(v, t, r)->Some_0;
                lemma_flat_scalar(items@, t, items@.len() as int);
                assert(scalar_seq(items@, t).subrange(0, items@.len() as int) =~= scalar_seq(
                    items@,
                    t,
                ));
                if items@.len() > 0 {
                    assert(scalar_val(items@[0], t) is Some);
                    match items@[0] {
                        Value::Scalar(_) => {
                            assert(nested_shape(items@[0]) =~= Seq::<usize>::empty());
                        },
                        Value::Array(a0) => {
                            assert(a0.shape@.len() == 0);
                            assert(nested_shape(items@[0]) =~= Seq::<usize>::empty());
                        },
                        Value::List(_) => {},
                    }
                }
                assert(ex.arr.shape =~= nested_shape(v));
            } else if r.spec_deep() && items@.len() > 0 && items_ok(
                items@,
                t,
                r2,
                items@.len() as int,
            ) && items_same_shape(items@, t, r2, items@.len() as int) {
                let n = items@.len() as int;
                let ex = coerce(v, t, r)->Some_0;
                lemma_items_exact(items@, t, r2, n);
                lemma_items_ok_index(items@, t, r2, n, 0);
                lemma_all_wf_index(items@, n, 0);
                lemma_coerce_exact(items@[0], t, r2);
                assert(ex.arr.shape =~= nested_shape(v));
                // the rows' rank satisfies the reduced descriptor, so one
                // more leading extent satisfies the requested one
                let s0 = coerce(items@[0], t, r2)->Some_0.arr.shape;
                assert(r2.spec_matches_len(s0.len()));
            }
        },
    }
}

/// Scalar-like items flatten to their single cast values.
proof fn lemma_flat_scalar(items: Seq<Value>, t: ElemType, i: int)
    requires
        all_wf(items, items.len() as int),
        all_scalar(items, t),
        0 <= i <= items.len(),
    ensures
        flat_items(items, t, i) == scalar_seq(items, t).subrange(0, i),
        items_cast(items, t, i),
    decreases i,
{
    if i > 0 {
        lemma_flat_scalar(items, t, i - 1);
        lemma_all_wf_index(items, items.len() as int, i - 1);
        assert(scalar_val(items[i - 1], t) is Some);
        match items[i - 1] {
            Value::Scalar(_) => {
                assert(flat_data(items[i - 1], t) =~= seq![scalar_val(items[i - 1], t)->Some_0]);
                assert(value_casts(items[i - 1], t));
            },
            Value::Array(a) => {
                assert(a.data@.len() == shape_prod(a.shape@));
                assert(a.shape@.len() == 0);
                assert(shape_prod(a.shape@) == 1);
                assert(flat_data(items[i - 1], t) =~= seq![scalar_val(items[i - 1], t)->Some_0]);
                assert forall|x: int| 0 <= x < a.data@.len() implies (#[trigger] cast_num(
                    a.data@[x],
                    t,
                )) is Some by {
                    assert(x == 0);
                }
                assert(value_casts(items[i - 1], t));
            },
            Value::List(_) => {
                assert(false);
            },
        }
        assert(flat_items(items, t, i) =~= scalar_seq(items, t).subrange(0, i));
    } else {
        assert(flat_items(items, t, 0) =~= scalar_seq(items, t).subrange(0, 0));
    }
}

/// Exactness of the stacked prefix of a list's items.
proof fn lemma_items_exact(items: Seq<Value>, t: ElemType, r2: Rank, i: int)
    requires
        all_wf(items, items.len() as int),
        items_ok(items, t, r2, i),
        0 <= i <= items.len(),
    ensures
        items_data(items, t, r2, i) == flat_items(items, t, i),
        items_cast(items, t, i),
    decreases items, i,
{
    if i > 0 {
        lemma_items_exact(items, t, r2, i - 1);
        lemma_all_wf_index(items, items.len() as int, i - 1);
        lemma_coerce_exact(items[i - 1], t, r2);
    }
}

/// Zero-copy identity: an input that already is a native array of the
/// requested element type and rank extracts as a borrowed handle whose
/// view is exactly that array; and a borrowed handle arises from no other
/// input.
pub proof fn law_zero_copy(v: Value, t: ElemType, r: Rank)
    requires
        v.wf(),
    ensures
        v matches Value::Array(a) ==> ((a.dtype == t && r.spec_matches_len(a.shape@.len()))
            ==> coerce(v, t, r) == Some(Extracted { borrowed: true, arr: a@ })),
        coerce(v, t, r) matches Some(ex) ==> (ex.borrowed ==> (v matches Value::Array(a)
            && a.dtype == t && r.spec_matches_len(a.shape@.len()) && ex.arr == a@)),
{
    lemma_coerce_wf(v, t, r);
    match v {
        Value::Array(a) => {
            if a.dtype == t && r.spec_matches_len(a.shape@.len()) {
                let ex = coerce(v, t, r)->Some_0;
                assert(ex.arr =~= a@);
                assert(ex =~= Extracted { borrowed: true, arr: a@ });
            }
        },
        Value::Scalar(_) => {},
        Value::List(_) => {},
    }
}

/// Round trip: a successful extraction carries exactly the shape of the
/// input's nested structure and the safe casts of its numbers in
/// row-major order, so consuming the handle into an owned array
/// reproduces an independent reconstruction of the input.
pub proof fn law_round_trip(v: Value, t: ElemType, r: Rank)
    requires
        v.wf(),
        coerce(v, t, r) is Some,
    ensures
        coerce(v, t, r)->Some_0.arr.shape == nested_shape(v),
        coerce(v, t, r)->Some_0.arr.data == flat_data(v, t),
{
    lemma_coerce_exact(v, t, r);
}

/// Rank agreement: with a fixed requested rank the resulting shape has
/// exactly that many extents, and with dynamic rank it has one extent per
/// nesting level of the input.
pub proof fn law_rank_agreement(v: Value, t: ElemType, r: Rank)
    requires
        v.wf(),
        coerce(v, t, r) is Some,
    ensures
        r matches Rank::Fixed(k) ==> coerce(v, t, r)->Some_0.arr.shape.len() == k,
        coerce(v, t, r)->Some_0.arr.shape.len() == nested_shape(v).len(),
{
    lemma_coerce_exact(v, t, r);
}

/// Whether the buffer prefix `0 .. n` holds a float that denotes no
/// integer (not-a-number, infinite, or fractional).
pub open spec fn nums_fractional(nums: Seq<Num>, n: int) -> bool
    decreases n,
{
    if n <= 0 {
        false
    } else {
        nums_fractional(nums, n - 1) || (nums[n - 1] matches Num::Float(b) && float_as_int(b)
            is None)
    }
}

/// Whether the value holds, anywhere, a float that denotes no integer.
pub open spec fn has_fractional_float(v: Value) -> bool
    decreases v, 0int,
{
    match v {
        Value::Scalar(n) => (n matches Num::Float(b) && float_as_int(b) is None),
        Value::Array(a) => nums_fractional(a.data@, a.data@.len() as int),
        Value::List(items) => list_fractional(items@, items@.len() as int),
    }
}

/// Whether one of items `0 .. n` holds such a float.
pub open spec fn list_fractional(items: Seq<Value>, n: int) -> bool
    decreases items, n,
{
    if n <= 0 || n > items.len() {
        false
    } else {
        list_fractional(items, n - 1) || has_fractional_float(items[n - 1])
    }
}

proof fn lemma_nums_no_fractional(nums: Seq<Num>, t: ElemType, n: int)
    requires
        is_int_type(t),
        all_cast(nums, t),
        n <= nums.len(),
    ensures
        !nums_fractional(nums, n),
    decreases n,
{
    if n > 0 {
        lemma_nums_no_fractional(nums, t, n - 1);
        assert(cast_num(nums[n - 1], t) is Some);
    }
}

proof fn lemma_casts_no_fractional(v: Value, t: ElemType)
    requires
        is_int_type(t),
        value_casts(v, t),
    ensures
        !has_fractional_float(v),
    decreases v, 0int,
{
    match v {
        Value::Scalar(_) => {},
        Value::Array(a) => {
            lemma_nums_no_fractional(a.data@, t, a.data@.len() as int);
        },
        Value::List(items) => {
            lemma_list_no_fractional(items@, t, items@.len() as int);
        },
    }
}

proof fn lemma_list_no_fractional(items: Seq<Value>, t: ElemType, n: int)
    requires
        is_int_type(t),
        items_cast(items, t, n),
        n <= items.len(),
    ensures
        !list_fractional(items, n),
    decreases items, n,
{
    if n > 0 {
        lemma_list_no_fractional(items, t, n - 1);
        lemma_casts_no_fractional(items[n - 1], t);
    }
}

/// Safe-cast rejection: an input holding a floating-point value that
/// denotes no integer never extracts into an integer element type.
pub proof fn law_safe_cast_rejection(v: Value, t: ElemType, r: Rank)
    requires
        v.wf(),
        is_int_type(t),
        has_fractional_float(v),
    ensures
        coerce(v, t, r) is None,
{
    if coerce(v, t, r) is Some {
        lemma_coerce_exact(v, t, r);
        lemma_casts_no_fractional(v, t);
    }
}

/// Safe-cast preservation: extraction into the floating-point element
/// type keeps every float's bit pattern exactly.
pub proof fn law_float_identity(b: u64)
    ensures
        cast_num(Num::Float(b), ElemType::F64) == Some(Num::Float(b)),
{
}

} // verus!
