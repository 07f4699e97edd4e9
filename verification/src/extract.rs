//! The extraction engine: the decision procedure that, given a host value
//! and a target element type and dimensionality, tries strategies in a
//! fixed priority order and returns the first success or a typed failure.
//!
//! Strategy order, first success wins:
//! 1. borrow the input when it already is a native array of the requested
//!    element type whose rank matches;
//! 2. for rank zero (or dynamic), read the input as a single value;
//! 3. for rank one (or dynamic), read the input as a flat sequence;
//! 4. for rank two or more (or dynamic), extract every child one rank
//!    lower and stack the equally shaped results along a new leading axis.
//!
//! The spec function `coerce` is the mathematical statement of this
//! procedure; `PyArrayLike::extract` is proved to return exactly it.

use crate::array_like::{copy_num_range, copy_usize_range, ArrayLike, Extracted, PyArrayLike};
use crate::num::{cast_num, elem_fits, lemma_cast_fits, safe_cast, ElemType, Num};
use crate::rank::Rank;
use crate::value::{shape_prod, ArrModel, NativeArray, Value};
use vstd::arithmetic::div_mod::lemma_div_multiples_vanish;
use vstd::prelude::*;

verus! {

/// The single outward-facing failure: the input could not be coerced to
/// the requested element type and dimensionality.
#[derive(Clone, Copy, Debug, PartialEq, Eq, Structural)]
pub struct TypeMismatch {
    pub dtype: ElemType,
    pub rank: Rank,
}

/// The single value a host value denotes under element type `t`: a bare
/// scalar, or a rank-zero array's only element.
pub open spec fn scalar_val(v: Value, t: ElemType) -> Option<Num> {
    match v {
        Value::Scalar(n) => cast_num(n, t),
        Value::Array(a) => if a.shape@.len() == 0 {
            cast_num(a.data@[0], t)
        } else {
            None
        },
        Value::List(_) => None,
    }
}

/// Whether every element of a buffer casts safely to `t`.
pub open spec fn all_cast(nums: Seq<Num>, t: ElemType) -> bool {
    forall|i: int| 0 <= i < nums.len() ==> (#[trigger] cast_num(nums[i], t)) is Some
}

/// The elementwise safe cast of a buffer (meaningful under `all_cast`).
pub open spec fn casted_seq(nums: Seq<Num>, t: ElemType) -> Seq<Num> {
    Seq::new(nums.len(), |i: int| cast_num(nums[i], t)->Some_0)
}

/// Whether every item of a list is a single value under `t`.
pub open spec fn all_scalar(items: Seq<Value>, t: ElemType) -> bool {
    forall|i: int| 0 <= i < items.len() ==> (#[trigger] scalar_val(items[i], t)) is Some
}

/// The values of a list of scalar-like items (meaningful under
/// `all_scalar`).
pub open spec fn scalar_seq(items: Seq<Value>, t: ElemType) -> Seq<Num> {
    Seq::new(items.len(), |i: int| scalar_val(items[i], t)->Some_0)
}

/// Row `j` of a buffer whose rows hold `q` elements each.
pub open spec fn row_seq(data: Seq<Num>, q: int, j: int) -> Seq<Num> {
    data.subrange(j * q, (j + 1) * q)
}

/// Extraction on an array with element type `d`, shape `s`, layout flag
/// `co` and row-major elements `data`. Iterating such an array yields its
/// rows along axis zero, which are arrays one rank lower.
pub open spec fn coerce_arr(
    d: ElemType,
    s: Seq<usize>,
    co: bool,
    data: Seq<Num>,
    t: ElemType,
    r: Rank,
) -> Option<Extracted>
    decreases s.len(), 0int,
{
    let q = shape_prod(s.drop_first()) as int;
    let r2 = r.spec_smaller();
    if d == t && r.spec_matches_len(s.len()) {
        Some(Extracted { borrowed: true, arr: ArrModel { dtype: d, shape: s, c_order: co, data } })
    } else if r.spec_allows(0) && s.len() == 0 && cast_num(data[0], t) is Some {
        Some(
            Extracted {
                borrowed: false,
                arr: ArrModel {
                    dtype: t,
                    shape: s,
                    c_order: true,
                    data: seq![cast_num(data[0], t)->Some_0],
                },
            },
        )
    } else if r.spec_allows(1) && s.len() == 1 && all_cast(data, t) {
        Some(
            Extracted {
                borrowed: false,
                arr: ArrModel { dtype: t, shape: s, c_order: true, data: casted_seq(data, t) },
            },
        )
    } else if r.spec_deep() && s.len() >= 1 && s[0] > 0 && arr_rows_ok(
        d,
        s.drop_first(),
        co,
        data,
        q,
        t,
        r2,
        s[0] as int,
    ) {
        Some(
            Extracted {
                borrowed: false,
                arr: ArrModel {
                    dtype: t,
                    shape: seq![s[0]] + coerce_arr(
                        d,
                        s.drop_first(),
                        co,
                        row_seq(data, q, 0),
                        t,
                        r2,
                    )->Some_0.arr.shape,
                    c_order: true,
                    data: arr_rows_data(d, s.drop_first(), co, data, q, t, r2, s[0] as int),
                },
            },
        )
    } else {
        None
    }
}

/// Whether rows `0 .. n` each extract successfully one rank lower.
pub open spec fn arr_rows_ok(
    d: ElemType,
    s2: Seq<usize>,
    co: bool,
    data: Seq<Num>,
    q: int,
    t: ElemType,
    r2: Rank,
    n: int,
) -> bool
    decreases s2.len(), n,
{
    if n <= 0 {
        true
    } else {
        arr_rows_ok(d, s2, co, data, q, t, r2, n - 1) && coerce_arr(
            d,
            s2,
            co,
            row_seq(data, q, n - 1),
            t,
            r2,
        ) is Some
    }
}

/// Each single row of a successful prefix extracts successfully.
pub proof fn lemma_arr_rows_ok_index(
    d: ElemType,
    s2: Seq<usize>,
    co: bool,
    data: Seq<Num>,
    q: int,
    t: ElemType,
    r2: Rank,
    n: int,
    j: int,
)
    requires
        arr_rows_ok(d, s2, co, data, q, t, r2, n),
        0 <= j < n,
    ensures
        coerce_arr(d, s2, co, row_seq(data, q, j), t, r2) is Some,
    decreases n,
{
    if j < n - 1 {
        lemma_arr_rows_ok_index(d, s2, co, data, q, t, r2, n - 1, j);
    }
}

/// Concatenation of the extracted data of rows `0 .. i`.
pub open spec fn arr_rows_data(
    d: ElemType,
    s2: Seq<usize>,
    co: bool,
    data: Seq<Num>,
    q: int,
    t: ElemType,
    r2: Rank,
    i: int,
) -> Seq<Num>
    decreases s2.len(), i,
{
    if i <= 0 {
        Seq::empty()
    } else {
        arr_rows_data(d, s2, co, data, q, t, r2, i - 1) + coerce_arr(
            d,
            s2,
            co,
            row_seq(data, q, i - 1),
            t,
            r2,
        )->Some_0.arr.data
    }
}

/// Extraction on an arbitrary host value, trying the engine's strategies
/// in priority order; the first success wins and no strategy is retried.
pub open spec fn coerce(v: Value, t: ElemType, r: Rank) -> Option<Extracted>
    decreases v, 0int,
{
    match v {
        Value::Array(a) => coerce_arr(a.dtype, a.shape@, a.c_order, a.data@, t, r),
        Value::Scalar(n) => if r.spec_allows(0) && cast_num(n, t) is Some {
            Some(
                Extracted {
                    borrowed: false,
                    arr: ArrModel {
                        dtype: t,
                        shape: Seq::empty(),
                        c_order: true,
                        data: seq![cast_num(n, t)->Some_0],
                    },
                },
            )
        } else {
            None
        },
        Value::List(items) => if r.spec_allows(1) && all_scalar(items@, t) {
            Some(
                Extracted {
                    borrowed: false,
                    arr: ArrModel {
                        dtype: t,
                        shape: seq![items@.len() as usize],
                        c_order: true,
                        data: scalar_seq(items@, t),
                    },
                },
            )
        } else if r.spec_deep() && items@.len() > 0 && items_ok(
            items@,
            t,
            r.spec_smaller(),
            items@.len() as int,
        ) && items_same_shape(items@, t, r.spec_smaller(), items@.len() as int) {
            Some(
                Extracted {
                    borrowed: false,
                    arr: ArrModel {
                        dtype: t,
                        shape: seq![items@.len() as usize] + coerce(
                            items@[0],
                            t,
                            r.spec_smaller(),
                        )->Some_0.arr.shape,
                        c_order: true,
                        data: items_data(items@, t, r.spec_smaller(), items@.len() as int),
                    },
                },
            )
        } else {
            None
        },
    }
}

/// Whether items `0 .. n` each extract successfully one rank lower.
pub open spec fn items_ok(items: Seq<Value>, t: ElemType, r2: Rank, n: int) -> bool
    decreases items, n,
{
    if n <= 0 || n > items.len() {
        true
    } else {
        items_ok(items, t, r2, n - 1) && coerce(items[n - 1], t, r2) is Some
    }
}

/// Whether items `0 .. n` all extract to the same shape as item 0, the
/// stacking requirement.
pub open spec fn items_same_shape(items: Seq<Value>, t: ElemType, r2: Rank, n: int) -> bool
    decreases items, n,
{
    if n <= 0 || n > items.len() {
        true
    } else {
        items_same_shape(items, t, r2, n - 1) && coerce(items[n - 1], t, r2)->Some_0.arr.shape
            == coerce(items[0], t, r2)->Some_0.arr.shape
    }
}

/// Each single item of a successful prefix extracts successfully.
pub proof fn lemma_items_ok_index(items: Seq<Value>, t: ElemType, r2: Rank, n: int, j: int)
    requires
        items_ok(items, t, r2, n),
        0 <= j < n,
        n <= items.len(),
    ensures
        coerce(items[j], t, r2) is Some,
    decreases n,
{
    if j < n - 1 {
        lemma_items_ok_index(items, t, r2, n - 1, j);
    }
}

/// Each single item of a successful prefix extracts successfully, to the
/// shape of item 0.
pub proof fn lemma_items_index(items: Seq<Value>, t: ElemType, r2: Rank, n: int, j: int)
    requires
        items_ok(items, t, r2, n),
        items_same_shape(items, t, r2, n),
        0 <= j < n,
        n <= items.len(),
    ensures
        coerce(items[j], t, r2) is Some,
        coerce(items[j], t, r2)->Some_0.arr.shape == coerce(items[0], t, r2)->Some_0.arr.shape,
    decreases n,
{
    if j < n - 1 {
        lemma_items_index(items, t, r2, n - 1, j);
    }
}

/// Concatenation of the extracted data of items `0 .. i`.
pub open spec fn items_data(items: Seq<Value>, t: ElemType, r2: Rank, i: int) -> Seq<Num>
    decreases items, i,
{
    if i <= 0 || i > items.len() {
        Seq::empty()
    } else {
        items_data(items, t, r2, i - 1) + coerce(items[i - 1], t, r2)->Some_0.arr.data
    }
}

/// Any successful array extraction keeps the array's shape, casts every
/// element, and is well typed for the target; only the borrow strategy
/// yields a borrowed result, and it hands the buffer through unchanged.
pub proof fn lemma_coerce_arr_wf(
    d: ElemType,
    s: Seq<usize>,
    co: bool,
    data: Seq<Num>,
    t: ElemType,
    r: Rank,
)
    requires
        data.len() == shape_prod(s),
        forall|i: int| 0 <= i < data.len() ==> elem_fits(d, #[trigger] data[i]),
    ensures
        coerce_arr(d, s, co, data, t, r) matches Some(ex) ==> {
            &&& ex.arr.shape == s
            &&& ex.arr.data.len() == data.len()
            &&& forall|i: int|
                0 <= i < ex.arr.data.len() ==> elem_fits(t, #[trigger] ex.arr.data[i])
            &&& !ex.borrowed ==> ex.arr.c_order
            &&& ex.arr.dtype == t
            &&& ex.borrowed ==> (d == t && ex.arr.c_order == co && ex.arr.data == data)
        },
    decreases s.len(), 0int,
{
    let q = shape_prod(s.drop_first()) as int;
    let r2 = r.spec_smaller();
    if d == t && r.spec_matches_len(s.len()) {
    } else if r.spec_allows(0) && s.len() == 0 && cast_num(data[0], t) is Some {
        lemma_cast_fits(data[0], t);
    } else if r.spec_allows(1) && s.len() == 1 && all_cast(data, t) {
        assert forall|i: int| 0 <= i < casted_seq(data, t).len() implies elem_fits(
            t,
            #[trigger] casted_seq(data, t)[i],
        ) by {
            lemma_cast_fits(data[i], t);
        }
    } else if r.spec_deep() && s.len() >= 1 && s[0] > 0 && arr_rows_ok(
        d,
        s.drop_first(),
        co,
        data,
        q,
        t,
        r2,
        s[0] as int,
    ) {
        let s2 = s.drop_first();
        let ghost n0 = s[0] as int;
        assert(data.len() == n0 * q);
        assert(0 * q == 0 && 1 * q == q && q <= n0 * q) by (nonlinear_arith)
            requires
                q >= 0,
                n0 >= 1;
        lemma_arr_rows_wf(d, s2, co, data, q, t, r2, s[0] as int);
        lemma_arr_rows_ok_index(d, s2, co, data, q, t, r2, s[0] as int, 0);
        let row0 = coerce_arr(d, s2, co, row_seq(data, q, 0), t, r2);
        assert(row0->Some_0.arr.shape == s2);
        let ex = coerce_arr(d, s, co, data, t, r)->Some_0;
        assert(ex.arr.shape == seq![s[0]] + row0->Some_0.arr.shape);
        assert(ex.arr.shape =~= s);
    } else {
    }
}

/// Shape and typing of the stacked prefix of an array's rows.
proof fn lemma_arr_rows_wf(
    d: ElemType,
    s2: Seq<usize>,
    co: bool,
    data: Seq<Num>,
    q: int,
    t: ElemType,
    r2: Rank,
    i: int,
)
    requires
        q == shape_prod(s2),
        0 <= i,
        i * q <= data.len(),
        forall|x: int| 0 <= x < data.len() ==> elem_fits(d, #[trigger] data[x]),
        arr_rows_ok(d, s2, co, data, q, t, r2, i),
    ensures
        arr_rows_data(d, s2, co, data, q, t, r2, i).len() == i * q,
        forall|x: int|
            0 <= x < i * q ==> elem_fits(
                t,
                #[trigger] arr_rows_data(d, s2, co, data, q, t, r2, i)[x],
            ),
        forall|j: int|
            0 <= j < i ==> (#[trigger] coerce_arr(
                d,
                s2,
                co,
                row_seq(data, q, j),
                t,
                r2,
            ))->Some_0.arr.shape == s2,
    decreases s2.len(), i,
{
    if i > 0 {
        assert(0 <= (i - 1) * q && (i - 1) * q <= i * q && i * q - (i - 1) * q == q)
            by (nonlinear_arith)
            requires
                q >= 0,
                i >= 1;
        assert(arr_rows_ok(d, s2, co, data, q, t, r2, i - 1));
        lemma_arr_rows_wf(d, s2, co, data, q, t, r2, i - 1);
        let row = row_seq(data, q, i - 1);
        assert(coerce_arr(d, s2, co, row, t, r2) is Some);
        assert(row.len() == q);
        assert forall|x: int| 0 <= x < row.len() implies elem_fits(d, #[trigger] row[x]) by {
            assert(row[x] == data[(i - 1) * q + x]);
        }
        lemma_coerce_arr_wf(d, s2, co, row, t, r2);
        let prev = arr_rows_data(d, s2, co, data, q, t, r2, i - 1);
        let cur = arr_rows_data(d, s2, co, data, q, t, r2, i);
        let rowex = coerce_arr(d, s2, co, row, t, r2)->Some_0;
        assert(cur == prev + rowex.arr.data);
        assert forall|x: int| 0 <= x < i * q implies elem_fits(t, #[trigger] cur[x]) by {
            if x < (i - 1) * q {
                assert(cur[x] == prev[x]);
            } else {
                assert(cur[x] == rowex.arr.data[x - (i - 1) * q]);
            }
        }
    } else {
        assert(i * q == 0) by (nonlinear_arith)
            requires
                i == 0;
    }
}

/// Any successful extraction has the target element type, well typed
/// elements, a buffer whose length is the product of its extents, and is
/// in standard order unless it is the borrowed input itself; a borrowed
/// result only arises from a native array that already matched.
pub proof fn lemma_coerce_wf(v: Value, t: ElemType, r: Rank)
    requires
        v.wf(),
    ensures
        coerce(v, t, r) matches Some(ex) ==> {
            &&& ex.arr.data.len() == shape_prod(ex.arr.shape)
            &&& forall|i: int|
                0 <= i < ex.arr.data.len() ==> elem_fits(t, #[trigger] ex.arr.data[i])
            &&& !ex.borrowed ==> ex.arr.c_order
            &&& ex.arr.dtype == t
            &&& ex.borrowed ==> (v matches Value::Array(a) && a.dtype == t
                && r.spec_matches_len(a.shape@.len()) && ex.arr == a@)
        },
    decreases v, 0int,
{
    let r2 = r.spec_smaller();
    match v {
        Value::Array(a) => {
            lemma_coerce_arr_wf(a.dtype, a.shape@, a.c_order, a.data@, t, r);
        },
        Value::Scalar(n) => {
            lemma_cast_fits(n, t);
        },
        Value::List(items) => {
            vstd::std_specs::vec::axiom_spec_len(&items);
            if r.spec_allows(1) && all_scalar(items@, t) {
                let out = scalar_seq(items@, t);
                assert forall|i: int| 0 <= i < out.len() implies elem_fits(
                    t,
                    #[trigger] out[i],
                ) by {
                    assert(scalar_val(items@[i], t) is Some);
                    match items@[i] {
                        Value::Scalar(n) => lemma_cast_fits(n, t),
                        Value::Array(a) => lemma_cast_fits(a.data@[0], t),
                        Value::List(_) => (),
                    }
                }
                assert(shape_prod(seq![items@.len() as usize]) == items@.len()) by {
                    assert(seq![items@.len() as usize].drop_first() =~= Seq::<usize>::empty());
                    assert(shape_prod(Seq::<usize>::empty()) == 1);
                }
            } else if r.spec_deep() && items@.len() > 0 && items_ok(
                items@,
                t,
                r2,
                items@.len() as int,
            ) && items_same_shape(items@, t, r2, items@.len() as int) {
                let n = items@.len() as int;
                let s0 = coerce(items@[0], t, r2)->Some_0.arr.shape;
                lemma_items_wf(items@, t, r2, n, s0);
                let ex = coerce(v, t, r)->Some_0;
                assert(ex.arr.shape == seq![items@.len() as usize] + s0);
                assert(ex.arr.shape.drop_first() =~= s0);
                assert(shape_prod(ex.arr.shape) == items@.len() * shape_prod(s0));
            }
        },
    }
}

/// Length and typing of the stacked prefix of a list's items.
proof fn lemma_items_wf(items: Seq<Value>, t: ElemType, r2: Rank, i: int, s0: Seq<usize>)
    requires
        0 <= i <= items.len(),
        crate::value::all_wf(items, items.len() as int),
        items_ok(items, t, r2, i),
        items_same_shape(items, t, r2, i),
        i > 0 ==> s0 == coerce(items[0], t, r2)->Some_0.arr.shape,
    ensures
        items_data(items, t, r2, i).len() == i * shape_prod(s0),
        forall|x: int|
            0 <= x < items_data(items, t, r2, i).len() ==> elem_fits(
                t,
                #[trigger] items_data(items, t, r2, i)[x],
            ),
    decreases items, i,
{
    if i > 0 {
        let q = shape_prod(s0) as int;
        assert(0 <= (i - 1) * q && (i - 1) * q <= i * q && i * q - (i - 1) * q == q)
            by (nonlinear_arith)
            requires
                q >= 0,
                i >= 1;
        lemma_items_wf(items, t, r2, i - 1, s0);
        crate::value::lemma_all_wf_index(items, items.len() as int, i - 1);
        lemma_coerce_wf(items[i - 1], t, r2);
        assert(coerce(items[i - 1], t, r2)->Some_0.arr.shape == s0);
        let prev = items_data(items, t, r2, i - 1);
        let cur = items_data(items, t, r2, i);
        let sub = coerce(items[i - 1], t, r2)->Some_0;
        assert(cur == prev + sub.arr.data);
        assert(sub.arr.data.len() == q);
        assert forall|x: int| 0 <= x < cur.len() implies elem_fits(t, #[trigger] cur[x]) by {
            if x < prev.len() {
                assert(cur[x] == prev[x]);
            } else {
                assert(cur[x] == sub.arr.data[x - prev.len()]);
            }
        }
    } else {
        assert(i * shape_prod(s0) == 0) by (nonlinear_arith)
            requires
                i == 0;
    }
}

fn scalar_of(v: &Value, t: ElemType) -> (r: Option<Num>)
    requires
        v.wf(),
    ensures
        r == scalar_val(*v, t),
{
    match v {
        Value::Scalar(n) => safe_cast(*n, t),
        Value::Array(a) => {
            if a.shape.len() == 0 {
                proof {
                    assert(a.data@.len() == shape_prod(a.shape@));
                }
                safe_cast(a.data[0], t)
            } else {
                None
            }
        },
        Value::List(_) => None,
    }
}

fn cast_range(data: &Vec<Num>, from: usize, to: usize, t: ElemType) -> (r: Option<Vec<Num>>)
    requires
        from <= to && to <= data@.len(),
    ensures
        match r {
            Some(out) => all_cast(data@.subrange(from as int, to as int), t) && out@
                == casted_seq(data@.subrange(from as int, to as int), t),
            None => !all_cast(data@.subrange(from as int, to as int), t),
        },
{
    let ghost dd = data@.subrange(from as int, to as int);
    let mut out: Vec<Num> = Vec::new();
    let mut i: usize = from;
    while i < to
        invariant
            from <= i <= to <= data@.len(),
            dd == data@.subrange(from as int, to as int),
            out@.len() == i - from,
            forall|j: int| 0 <= j < i - from ==> (#[trigger] cast_num(dd[j], t)) is Some,
            forall|j: int| 0 <= j < i - from ==> out@[j] == cast_num(dd[j], t)->Some_0,
        decreases to - i,
    {
        proof {
            assert(dd[i - from] == data@[i as int]);
        }
        match safe_cast(data[i], t) {
            Some(n) => {
                out.push(n);
            },
            None => {
                proof {
                    assert(cast_num(dd[i - from], t) is None);
                }
                return None;
            },
        }
        i = i + 1;
    }
    proof {
        assert(out@ =~= casted_seq(dd, t));
    }
    Some(out)
}

/// Extraction on the sub-array of `a` that starts at axis `lvl` and
/// occupies `data[off .. off + len]`; returns the shape and elements of
/// the resulting owned array.
fn extract_arr_owned(
    a: &NativeArray,
    lvl: usize,
    off: usize,
    len: usize,
    t: ElemType,
    r: Rank,
) -> (res: Option<(Vec<usize>, Vec<Num>)>)
    requires
        a.wf(),
        lvl <= a.shape@.len(),
        off + len <= a.data@.len(),
        len as nat == shape_prod(a.shape@.subrange(lvl as int, a.shape@.len() as int)),
    ensures
        ({
            let s = a.shape@.subrange(lvl as int, a.shape@.len() as int);
            let dd = a.data@.subrange(off as int, off as int + len as int);
            match coerce_arr(a.dtype, s, a.c_order, dd, t, r) {
                Some(ex) => res matches Some(p) && p.0@ == ex.arr.shape && p.1@ == ex.arr.data,
                None => res is None,
            }
        }),
    decreases a.shape@.len() - lvl,
{
    let ghost s = a.shape@.subrange(lvl as int, a.shape@.len() as int);
    let ghost dd = a.data@.subrange(off as int, off as int + len as int);
    proof {
        vstd::std_specs::vec::axiom_spec_len(&a.data);
        vstd::std_specs::vec::axiom_spec_len(&a.shape);
    }
    let rem = a.shape.len() - lvl;

    // strategy 1: the buffer already has the requested element type and rank
    if a.dtype == t && r.matches_len(rem) {
        let shp = copy_usize_range(&a.shape, lvl, a.shape.len());
        let dat = copy_num_range(&a.data, off, off + len);
        return Some((shp, dat));
    }
    // strategy 2: a single value
    if r.allows(0) && rem == 0 {
        proof {
            assert(dd[0] == a.data@[off as int]);
        }
        match safe_cast(a.data[off], t) {
            Some(n) => {
                let shp: Vec<usize> = Vec::new();
                let mut dat: Vec<Num> = Vec::new();
                dat.push(n);
                proof {
                    assert(shp@ =~= s);
                    assert(dat@ =~= seq![cast_num(dd[0], t)->Some_0]);
                }
                return Some((shp, dat));
            },
            None => {
                return None;
            },
        }
    }
    // strategy 3: a flat sequence of values
    if r.allows(1) && rem == 1 {
        proof {
            assert(s.drop_first() =~= Seq::<usize>::empty());
        }
        match cast_range(&a.data, off, off + len, t) {
            Some(dat) => {
                let mut shp: Vec<usize> = Vec::new();
                shp.push(a.shape[lvl]);
                proof {
                    assert(shp@ =~= s);
                }
                return Some((shp, dat));
            },
            None => {
                if !r.deep() {
                    return None;
                }
            },
        }
    }
    // strategy 4: extract the rows one rank lower and stack them
    if r.deep() && rem >= 1 {
        let n0 = a.shape[lvl];
        if n0 == 0 {
            return None;
        }
        let q = len / n0;
        let ghost s2 = s.drop_first();
        let ghost r2 = r.spec_smaller();
        proof {
            assert(s2 =~= a.shape@.subrange(lvl as int + 1, a.shape@.len() as int));
            assert(len as nat == s[0] * shape_prod(s2));
            lemma_div_multiples_vanish(shape_prod(s2) as int, n0 as int);
            assert(q as nat == shape_prod(s2));
        }
        let mut acc: Vec<Num> = Vec::new();
        let mut first: Vec<usize> = Vec::new();
        let mut i: usize = 0;
        while i < n0
            invariant
                a.wf(),
                lvl < a.shape@.len(),
                off + len <= a.data@.len(),
                rem == a.shape@.len() - lvl,
                n0 == a.shape@[lvl as int],
                0 < n0,
                i <= n0,
                s == a.shape@.subrange(lvl as int, a.shape@.len() as int),
                s2 == s.drop_first(),
                s2 == a.shape@.subrange(lvl as int + 1, a.shape@.len() as int),
                r2 == r.spec_smaller(),
                r matches Rank::Fixed(k) ==> k >= 2,
                dd == a.data@.subrange(off as int, off as int + len as int),
                q as nat == shape_prod(s2),
                len == n0 * q,
                arr_rows_ok(a.dtype, s2, a.c_order, dd, q as int, t, r2, i as int),
                acc@ == arr_rows_data(a.dtype, s2, a.c_order, dd, q as int, t, r2, i as int),
                i > 0 ==> first@ == coerce_arr(
                    a.dtype,
                    s2,
                    a.c_order,
                    row_seq(dd, q as int, 0),
                    t,
                    r2,
                )->Some_0.arr.shape,
            decreases n0 - i,
        {
            let ghost ii = i as int;
            let ghost qq = q as int;
            let ghost nn = n0 as int;
            proof {
                vstd::std_specs::vec::axiom_spec_len(&a.data);
                vstd::std_specs::vec::axiom_spec_len(&a.shape);
                assert(0 <= ii * qq && ii * qq + qq <= nn * qq && (ii + 1) * qq == ii * qq + qq)
                    by (nonlinear_arith)
                    requires
                        0 <= ii,
                        ii < nn,
                        qq >= 0;
            }
            let sub = extract_arr_owned(a, lvl + 1, off + i * q, q, t, r.smaller());
            proof {
                assert(a.data@.subrange(
                    (off + i * q) as int,
                    (off + i * q) as int + q as int,
                ) =~= row_seq(dd, q as int, i as int));
            }
            match sub {
                None => {
                    proof {
                        if arr_rows_ok(a.dtype, s2, a.c_order, dd, q as int, t, r2, n0 as int) {
                            lemma_arr_rows_ok_index(
                                a.dtype,
                                s2,
                                a.c_order,
                                dd,
                                q as int,
                                t,
                                r2,
                                n0 as int,
                                i as int,
                            );
                        }
                    }
                    return None;
                },
                Some(p) => {
                    let (sshp, mut sdat) = p;
                    if i == 0 {
                        first = sshp;
                    }
                    acc.append(&mut sdat);
                },
            }
            i = i + 1;
        }
        let mut shp: Vec<usize> = Vec::new();
        shp.push(n0);
        shp.append(&mut first);
        proof {
            lemma_arr_rows_ok_index(a.dtype, s2, a.c_order, dd, q as int, t, r2, n0 as int, 0);
            let ex = coerce_arr(a.dtype, s, a.c_order, dd, t, r)->Some_0;
            assert(shp@ =~= ex.arr.shape);
        }
        return Some((shp, acc));
    }
    None
}

fn usize_vecs_equal(x: &Vec<usize>, y: &Vec<usize>) -> (r: bool)
    ensures
        r == (x@ == y@),
{
    if x.len() != y.len() {
        return false;
    }
    let mut i: usize = 0;
    while i < x.len()
        invariant
            i <= x@.len(),
            x@.len() == y@.len(),
            forall|j: int| 0 <= j < i ==> x@[j] == y@[j],
        decreases x@.len() - i,
    {
        if x[i] != y[i] {
            return false;
        }
        i = i + 1;
    }
    proof {
        assert(x@ =~= y@);
    }
    true
}

fn scalars_of(items: &Vec<Value>, t: ElemType) -> (r: Option<Vec<Num>>)
    requires
        crate::value::all_wf(items@, items@.len() as int),
    ensures
        match r {
            Some(out) => all_scalar(items@, t) && out@ == scalar_seq(items@, t),
            None => !all_scalar(items@, t),
        },
{
    let mut out: Vec<Num> = Vec::new();
    let mut i: usize = 0;
    while i < items.len()
        invariant
            i <= items@.len(),
            crate::value::all_wf(items@, items@.len() as int),
            out@.len() == i,
            forall|j: int| 0 <= j < i ==> (#[trigger] scalar_val(items@[j], t)) is Some,
            forall|j: int| 0 <= j < i ==> out@[j] == scalar_val(items@[j], t)->Some_0,
        decreases items@.len() - i,
    {
        proof {
            crate::value::lemma_all_wf_index(items@, items@.len() as int, i as int);
        }
        match scalar_of(&items[i], t) {
            Some(n) => {
                out.push(n);
            },
            None => {
                return None;
            },
        }
        i = i + 1;
    }
    proof {
        assert(out@ =~= scalar_seq(items@, t));
    }
    Some(out)
}

/// The engine on an arbitrary host value; `None` when no strategy
/// succeeds.
#[verifier::rlimit(60)]
fn from_value<'py>(ob: &'py Value, t: ElemType, r: Rank) -> (res: Option<PyArrayLike<'py>>)
    requires
        ob.wf(),
    ensures
        match res {
            Some(p) => coerce(*ob, t, r) == Some(p.model()) && p.wf(),
            None => coerce(*ob, t, r) is None,
        },
    decreases *ob,
{
    match ob {
        Value::Array(a) => {
            proof {
                vstd::std_specs::vec::axiom_spec_len(&a.shape);
                vstd::std_specs::vec::axiom_spec_len(&a.data);
            }
            if a.dtype == t && r.matches_len(a.shape.len()) {
                let p = PyArrayLike(ArrayLike::PyRef(a));
                proof {
                    let ex = coerce(*ob, t, r)->Some_0;
                    assert(p.model().arr =~= ex.arr);
                    assert(p.model() =~= ex);
                }
                Some(p)
            } else {
                proof {
                    assert(a.shape@.subrange(0, a.shape@.len() as int) =~= a.shape@);
                    assert(a.data@.subrange(0, a.data@.len() as int) =~= a.data@);
                }
                match extract_arr_owned(a, 0, 0, a.data.len(), t, r) {
                    Some(pair) => {
                        let (shp, dat) = pair;
                        let arr = NativeArray { dtype: t, shape: shp, c_order: true, data: dat };
                        let p = PyArrayLike(ArrayLike::Owned(arr));
                        proof {
                            lemma_coerce_wf(*ob, t, r);
                            let ex = coerce(*ob, t, r)->Some_0;
                            assert(!ex.borrowed);
                            assert(p.model().arr =~= ex.arr);
                            assert(p.model() =~= ex);
                        }
                        Some(p)
                    },
                    None => None,
                }
            }
        },
        Value::Scalar(n) => {
            if r.allows(0) {
                match safe_cast(*n, t) {
                    Some(m) => {
                        let mut dat: Vec<Num> = Vec::new();
                        dat.push(m);
                        let arr = NativeArray {
                            dtype: t,
                            shape: Vec::new(),
                            c_order: true,
                            data: dat,
                        };
                        let p = PyArrayLike(ArrayLike::Owned(arr));
                        proof {
                            lemma_coerce_wf(*ob, t, r);
                            let ex = coerce(*ob, t, r)->Some_0;
                            assert(p.model().arr.shape =~= ex.arr.shape);
                            assert(p.model().arr.data =~= ex.arr.data);
                            assert(p.model().arr =~= ex.arr);
                            assert(p.model() =~= ex);
                        }
                        Some(p)
                    },
                    None => None,
                }
            } else {
                None
            }
        },
        Value::List(items) => {
            proof {
                vstd::std_specs::vec::axiom_spec_len(items);
            }
            if r.allows(1) {
                match scalars_of(items, t) {
                    Some(dat) => {
                        let mut shp: Vec<usize> = Vec::new();
                        shp.push(items.len());
                        let arr = NativeArray { dtype: t, shape: shp, c_order: true, data: dat };
                        let p = PyArrayLike(ArrayLike::Owned(arr));
                        proof {
                            lemma_coerce_wf(*ob, t, r);
                            let ex = coerce(*ob, t, r)->Some_0;
                            assert(p.model().arr.shape =~= ex.arr.shape);
                            assert(p.model().arr =~= ex.arr);
                            assert(p.model() =~= ex);
                        }
                        return Some(p);
                    },
                    None => {},
                }
            }
            if r.deep() && items.len() > 0 {
                let ghost r2 = r.spec_smaller();
                let mut acc: Vec<Num> = Vec::new();
                let mut first: Vec<usize> = Vec::new();
                let mut i: usize = 0;
                while i < items.len()
                    invariant
                        *ob is List,
                        (*ob)->List_0 == *items,
                        !(r.spec_allows(1) && all_scalar(items@, t)),
                        ob.wf(),
                        i <= items@.len(),
                        items@.len() > 0,
                        crate::value::all_wf(items@, items@.len() as int),
                        r2 == r.spec_smaller(),
                        r.spec_deep(),
                        r matches Rank::Fixed(k) ==> k >= 2,
                        items_ok(items@, t, r2, i as int),
                        items_same_shape(items@, t, r2, i as int),
                        acc@ == items_data(items@, t, r2, i as int),
                        i > 0 ==> first@ == coerce(items@[0], t, r2)->Some_0.arr.shape,
                    decreases items@.len() - i,
                {
                    proof {
                        vstd::std_specs::vec::axiom_spec_len(items);
                        crate::value::lemma_all_wf_index(items@, items@.len() as int, i as int);
                    }
                    proof {
                        assert(decreases_to!(*ob => (*ob)->List_0));
                        assert(decreases_to!((*ob)->List_0 => items@));
                        assert(decreases_to!(items@ => items@[i as int]));
                        assert(decreases_to!(*ob => items@[i as int]));
                    }
                    match from_value(&items[i], t, r.smaller()) {
                        None => {
                            proof {
                                if items_ok(items@, t, r2, items@.len() as int) {
                                    lemma_items_ok_index(
                                        items@,
                                        t,
                                        r2,
                                        items@.len() as int,
                                        i as int,
                                    );
                                }
                            }
                            return None;
                        },
                        Some(sub) => {
                            let sa = sub.into_owned_array();
                            let sshp = sa.shape;
                            let mut sdat = sa.data;
                            if i == 0 {
                                first = sshp;
                            } else {
                                if !usize_vecs_equal(&sshp, &first) {
                                    proof {
                                        if items_same_shape(items@, t, r2, items@.len() as int)
                                            && items_ok(items@, t, r2, items@.len() as int) {
                                            lemma_items_index(
                                                items@,
                                                t,
                                                r2,
                                                items@.len() as int,
                                                i as int,
                                            );
                                        }
                                    }
                                    return None;
                                }
                            }
                            acc.append(&mut sdat);
                        },
                    }
                    i = i + 1;
                }
                let mut shp: Vec<usize> = Vec::new();
                shp.push(items.len());
                shp.append(&mut first);
                let arr = NativeArray { dtype: t, shape: shp, c_order: true, data: acc };
                let p = PyArrayLike(ArrayLike::Owned(arr));
                proof {
                    lemma_coerce_wf(*ob, t, r);
                    let ex = coerce(*ob, t, r)->Some_0;
                    assert(p.model().arr.shape =~= ex.arr.shape);
                    assert(p.model().arr =~= ex.arr);
                    assert(p.model() =~= ex);
                }
                return Some(p);
            }
            None
        },
    }
}

impl<'py> PyArrayLike<'py> {
    /// Requests extraction of an array of element type `t` and
    /// dimensionality `r` from the host value `ob`; on failure the error
    /// carries the requested element type and dimensionality.
    pub fn extract(ob: &'py Value, t: ElemType, r: Rank) -> (res: Result<
        PyArrayLike<'py>,
        TypeMismatch,
    >)
        requires
            ob.wf(),
        ensures
            match res {
                Ok(p) => coerce(*ob, t, r) == Some(p.model()) && p.wf(),
                Err(e) => coerce(*ob, t, r) is None && e == (TypeMismatch { dtype: t, rank: r }),
            },
    {
        match from_value(ob, t, r) {
            Some(p) => Ok(p),
            None => Err(TypeMismatch { dtype: t, rank: r }),
        }
    }
}

} // verus!
