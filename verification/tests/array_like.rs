use arraylike::array_like::PyArrayLike;
use arraylike::num::ElemType;
use arraylike::num::Num;
use arraylike::rank::Rank;
use arraylike::value::NativeArray;
use arraylike::value::Value;

fn float_array(shape: Vec<usize>, vals: Vec<f64>) -> Value {
    let data: Vec<Num> = vals.into_iter().map(|x| Num::Float(x.to_bits())).collect();
    Value::Array(NativeArray::new(ElemType::F64, shape, true, data).unwrap())
}

fn int_array(dtype: ElemType, shape: Vec<usize>, vals: Vec<i128>) -> Value {
    let data: Vec<Num> = vals.into_iter().map(Num::Int).collect();
    Value::Array(NativeArray::new(dtype, shape, true, data).unwrap())
}

fn int_list(vals: Vec<i128>) -> Value {
    Value::List(vals.into_iter().map(|x| Value::Scalar(Num::Int(x))).collect())
}

fn floats(vals: &[f64]) -> Vec<Num> {
    vals.iter().map(|x| Num::Float(x.to_bits())).collect()
}

fn ints(vals: &[i128]) -> Vec<Num> {
    vals.iter().copied().map(Num::Int).collect()
}

#[test]
fn array_like_extract_reference() {
    let py_array = float_array(vec![2, 2], vec![1.0, 2.0, 3.0, 4.0]);
    let extracted_array = PyArrayLike::extract(&py_array, ElemType::F64, Rank::Fixed(2)).unwrap();

    let owned = extracted_array.into_owned_array();
    assert_eq!(owned.shape, vec![2, 2]);
    assert_eq!(owned.data, floats(&[1.0, 2.0, 3.0, 4.0]));
}

#[test]
fn array_like_convert_array_on_extract() {
    let py_array = int_array(ElemType::I64, vec![2, 2], vec![1, 2, 3, 4]);
    let extracted_array = PyArrayLike::extract(&py_array, ElemType::F64, Rank::Fixed(2)).unwrap();

    let owned = extracted_array.into_owned_array();
    assert_eq!(owned.shape, vec![2, 2]);
    assert_eq!(owned.data, floats(&[1.0, 2.0, 3.0, 4.0]));
}

#[test]
fn array_like_convert_list_on_extract() {
    let py_list = Value::List(vec![int_list(vec![1, 2]), int_list(vec![3, 4])]);
    let extracted_array = PyArrayLike::extract(&py_list, ElemType::I32, Rank::Fixed(2)).unwrap();

    let owned = extracted_array.into_owned_array();
    assert_eq!(owned.shape, vec![2, 2]);
    assert_eq!(owned.data, ints(&[1, 2, 3, 4]));
}

#[test]
fn array_like_convert_array_in_list_on_extract() {
    let py_array = Value::List(vec![
        int_array(ElemType::I32, vec![2], vec![1, 2]),
        int_list(vec![3, 4]),
    ]);
    let extracted_array = PyArrayLike::extract(&py_array, ElemType::I32, Rank::Fixed(2)).unwrap();

    let owned = extracted_array.into_owned_array();
    assert_eq!(owned.shape, vec![2, 2]);
    assert_eq!(owned.data, ints(&[1, 2, 3, 4]));
}

#[test]
fn array_like_convert_list_on_extract_dyn() {
    let py_list = Value::List(vec![
        Value::List(vec![int_list(vec![1, 2]), int_list(vec![3, 4])]),
        Value::List(vec![int_list(vec![5, 6]), int_list(vec![7, 8])]),
    ]);
    let extracted_array = PyArrayLike::extract(&py_list, ElemType::I32, Rank::Dyn).unwrap();

    let owned = extracted_array.into_owned_array();
    assert_eq!(owned.shape, vec![2, 2, 2]);
    assert_eq!(owned.data, ints(&[1, 2, 3, 4, 5, 6, 7, 8]));
}

#[test]
fn array_like_convert_1d_list_on_extract() {
    let py_list = int_list(vec![1, 2, 3, 4]);
    let extracted_array_1d = PyArrayLike::extract(&py_list, ElemType::U32, Rank::Fixed(1)).unwrap();
    let extracted_array_dyn = PyArrayLike::extract(&py_list, ElemType::F64, Rank::Dyn).unwrap();

    let owned_1d = extracted_array_1d.into_owned_array();
    assert_eq!(owned_1d.shape, vec![4]);
    assert_eq!(owned_1d.data, ints(&[1, 2, 3, 4]));
    let owned_dyn = extracted_array_dyn.into_owned_array();
    assert_eq!(owned_dyn.data, floats(&[1.0, 2.0, 3.0, 4.0]));
}

#[test]
fn array_like_unsafe_cast_shall_fail() {
    let py_list = float_array(vec![4], vec![1.1, 2.2, 3.3, 4.4]);
    let extracted_array = PyArrayLike::extract(&py_list, ElemType::I32, Rank::Fixed(1));

    assert!(extracted_array.is_err());
}

#[test]
fn array_like_extract_0d_array() {
    let array0 = int_array(ElemType::I64, vec![], vec![1]);
    let num = Value::Scalar(Num::Int(42));

    let extraction1 = PyArrayLike::extract(&array0, ElemType::I32, Rank::Fixed(0)).unwrap();
    let extraction2 = PyArrayLike::extract(&num, ElemType::I32, Rank::Fixed(0)).unwrap();
    let extraction3 = PyArrayLike::extract(&num, ElemType::Usize, Rank::Dyn).unwrap();

    assert_eq!(extraction1.into_owned_array().data, ints(&[1]));
    assert_eq!(extraction2.into_owned_array().data, ints(&[42]));
    let owned3 = extraction3.into_owned_array();
    assert_eq!(owned3.shape, Vec::<usize>::new());
    assert_eq!(owned3.data, ints(&[42]));
}
