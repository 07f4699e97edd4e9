use arraylike::array_like::ArrayLike;
use arraylike::array_like::PyArrayLike;
use arraylike::extract::TypeMismatch;
use arraylike::num::safe_cast;
use arraylike::num::ElemType;
use arraylike::num::Num;
use arraylike::rank::Rank;
use arraylike::value::NativeArray;
use arraylike::value::Value;

fn int_list(vals: Vec<i128>) -> Value {
    Value::List(vals.into_iter().map(|x| Value::Scalar(Num::Int(x))).collect())
}

fn ints(vals: &[i128]) -> Vec<Num> {
    vals.iter().copied().map(Num::Int).collect()
}

#[test]
fn ragged_list_shall_fail() {
    let ragged = Value::List(vec![int_list(vec![1, 2]), int_list(vec![3])]);
    let extracted = PyArrayLike::extract(&ragged, ElemType::I32, Rank::Fixed(2));
    assert!(extracted.is_err());
}

#[test]
fn mismatch_carries_request() {
    let ragged = Value::List(vec![int_list(vec![1, 2]), int_list(vec![3])]);
    let err = PyArrayLike::extract(&ragged, ElemType::I32, Rank::Fixed(2)).unwrap_err();
    assert_eq!(err, TypeMismatch { dtype: ElemType::I32, rank: Rank::Fixed(2) });
}

#[test]
fn wrong_rank_shall_fail() {
    let flat = int_list(vec![1, 2, 3]);
    assert!(PyArrayLike::extract(&flat, ElemType::I64, Rank::Fixed(0)).is_err());
    assert!(PyArrayLike::extract(&flat, ElemType::I64, Rank::Fixed(2)).is_err());
    assert!(PyArrayLike::extract(&flat, ElemType::I64, Rank::Fixed(1)).is_ok());
}

#[test]
fn fractional_in_list_shall_fail() {
    let mixed = Value::List(vec![
        Value::Scalar(Num::Int(1)),
        Value::Scalar(Num::Float(1.5f64.to_bits())),
    ]);
    assert!(PyArrayLike::extract(&mixed, ElemType::I64, Rank::Fixed(1)).is_err());
    let as_floats = PyArrayLike::extract(&mixed, ElemType::F64, Rank::Fixed(1)).unwrap();
    assert_eq!(
        as_floats.into_owned_array().data,
        vec![Num::Float(1.0f64.to_bits()), Num::Float(1.5f64.to_bits())]
    );
}

#[test]
fn integral_float_casts_to_int() {
    let v = Value::Scalar(Num::Float(42.0f64.to_bits()));
    let got = PyArrayLike::extract(&v, ElemType::I32, Rank::Fixed(0)).unwrap();
    assert_eq!(got.into_owned_array().data, ints(&[42]));

    let neg = Value::Scalar(Num::Float((-3.0f64).to_bits()));
    let got = PyArrayLike::extract(&neg, ElemType::I32, Rank::Fixed(0)).unwrap();
    assert_eq!(got.into_owned_array().data, ints(&[-3]));
    assert!(PyArrayLike::extract(&neg, ElemType::U32, Rank::Fixed(0)).is_err());
}

#[test]
fn cast_edges_match_ieee() {
    let two53 = 1i128 << 53;
    assert_eq!(
        safe_cast(Num::Int(two53), ElemType::F64),
        Some(Num::Float((9007199254740992.0f64).to_bits()))
    );
    // one past the largest exactly representable odd integer
    assert_eq!(safe_cast(Num::Int(two53 + 1), ElemType::F64), None);
    // trailing zero bits move into the exponent
    assert_eq!(
        safe_cast(Num::Int(1i128 << 60), ElemType::F64),
        Some(Num::Float((1152921504606846976.0f64).to_bits()))
    );
    // negative zero denotes the integer zero
    assert_eq!(safe_cast(Num::Float((-0.0f64).to_bits()), ElemType::I64), Some(Num::Int(0)));
    // not-a-number and infinities denote no integer
    assert_eq!(safe_cast(Num::Float(f64::NAN.to_bits()), ElemType::I64), None);
    assert_eq!(safe_cast(Num::Float(f64::INFINITY.to_bits()), ElemType::I64), None);
    // a large integral float is out of range for a narrow type
    assert_eq!(safe_cast(Num::Float(1.0e18f64.to_bits()), ElemType::I32), None);
    assert_eq!(
        safe_cast(Num::Float(1.0e18f64.to_bits()), ElemType::I64),
        Some(Num::Int(1_000_000_000_000_000_000))
    );
    // range checks on plain integers
    assert_eq!(safe_cast(Num::Int(1 << 40), ElemType::I32), None);
    assert_eq!(safe_cast(Num::Int(-1), ElemType::U64), None);
    assert_eq!(safe_cast(Num::Int(7), ElemType::U32), Some(Num::Int(7)));
}

#[test]
fn view_dim_and_slices() {
    let arr = NativeArray::new(
        ElemType::I64,
        vec![2, 2],
        true,
        ints(&[1, 2, 3, 4]),
    )
    .unwrap();
    let v = Value::Array(arr);
    let got = PyArrayLike::extract(&v, ElemType::I64, Rank::Fixed(2)).unwrap();
    assert_eq!(got.dim(), vec![2, 2]);
    assert_eq!(got.view().data, ints(&[1, 2, 3, 4]));
    assert_eq!(got.as_slice().unwrap(), &ints(&[1, 2, 3, 4])[..]);
}

#[test]
fn strided_buffer_has_no_slice() {
    // a borrowed buffer that is not contiguous in row-major order
    let arr = NativeArray::new(ElemType::I64, vec![2, 2], false, ints(&[1, 3, 2, 4])).unwrap();
    let v = Value::Array(arr);
    let got = PyArrayLike::extract(&v, ElemType::I64, Rank::Dyn).unwrap();
    assert!(matches!(got.0, ArrayLike::PyRef(_)));
    assert!(got.as_slice().is_none());
    // materializing copies into standard order
    let owned = got.into_owned_array();
    assert!(owned.c_order);
}

#[test]
fn into_pyarray_keeps_contents() {
    let flat = int_list(vec![5, 6, 7]);
    let got = PyArrayLike::extract(&flat, ElemType::I64, Rank::Fixed(1)).unwrap();
    let host = got.into_pyarray();
    assert_eq!(host.shape, vec![3]);
    assert_eq!(host.data, ints(&[5, 6, 7]));
    assert_eq!(host.dtype, ElemType::I64);
}

#[test]
fn empty_list_is_rank_one() {
    let empty = Value::List(Vec::new());
    let got = PyArrayLike::extract(&empty, ElemType::I32, Rank::Fixed(1)).unwrap();
    let owned = got.into_owned_array();
    assert_eq!(owned.shape, vec![0]);
    assert_eq!(owned.data, Vec::<Num>::new());
    // stacking needs at least one element
    assert!(PyArrayLike::extract(&empty, ElemType::I32, Rank::Fixed(2)).is_err());
}

#[test]
fn native_array_checks_its_shape() {
    assert!(NativeArray::new(ElemType::I64, vec![2, 2], true, ints(&[1, 2, 3])).is_none());
    assert!(NativeArray::new(ElemType::I64, vec![3, 0], true, Vec::new()).is_some());
    assert!(NativeArray::new(ElemType::I32, vec![1], true, ints(&[1 << 40])).is_none());
    assert!(
        NativeArray::new(ElemType::I64, vec![1], true, vec![Num::Float(1.0f64.to_bits())])
            .is_none()
    );
}

#[test]
fn deep_nesting_dyn() {
    let pair = |a: i128, b: i128| int_list(vec![a, b]);
    let v = Value::List(vec![
        Value::List(vec![pair(1, 2), pair(3, 4)]),
        Value::List(vec![pair(5, 6), pair(7, 8)]),
    ]);
    let got = PyArrayLike::extract(&v, ElemType::U64, Rank::Dyn).unwrap();
    assert_eq!(got.into_owned_array().shape, vec![2, 2, 2]);
}

#[test]
fn scalar_broadcast_to_rank_zero() {
    let v = Value::Scalar(Num::Int(42));
    let fixed = PyArrayLike::extract(&v, ElemType::I64, Rank::Fixed(0)).unwrap();
    assert_eq!(fixed.into_owned_array().shape, Vec::<usize>::new());
    let dynamic = PyArrayLike::extract(&v, ElemType::I64, Rank::Dyn).unwrap();
    let owned = dynamic.into_owned_array();
    assert_eq!(owned.shape, Vec::<usize>::new());
    assert_eq!(owned.data, ints(&[42]));
}

#[test]
fn dyn_rank_prefers_borrow() {
    let arr = NativeArray::new(ElemType::I64, vec![3], true, ints(&[1, 2, 3])).unwrap();
    let v = Value::Array(arr);
    let got = PyArrayLike::extract(&v, ElemType::I64, Rank::Dyn).unwrap();
    assert!(matches!(got.0, ArrayLike::PyRef(_)));
    let got_cast = PyArrayLike::extract(&v, ElemType::U64, Rank::Dyn).unwrap();
    assert!(matches!(got_cast.0, ArrayLike::Owned(_)));
}

#[test]
fn matching_array_stacks_one_rank_up() {
    let inner = NativeArray::new(ElemType::I32, vec![2, 2], true, ints(&[1, 2, 3, 4])).unwrap();
    let v = Value::List(vec![Value::Array(inner)]);
    let got = PyArrayLike::extract(&v, ElemType::I32, Rank::Fixed(3)).unwrap();
    assert!(matches!(got.0, ArrayLike::Owned(_)));
    let owned = got.into_owned_array();
    assert_eq!(owned.shape, vec![1, 2, 2]);
    assert_eq!(owned.data, ints(&[1, 2, 3, 4]));
}

#[test]
fn unsigned_range_is_enforced() {
    let v = int_list(vec![1, -2, 3]);
    assert!(PyArrayLike::extract(&v, ElemType::U32, Rank::Fixed(1)).is_err());
    assert!(PyArrayLike::extract(&v, ElemType::I32, Rank::Fixed(1)).is_ok());
}
