//! Tests of the slot buffer and the type-erased value carriers.

use async_dag::downcast;
use async_dag::CurriedTask;
use async_dag::TryTask;
use async_dag::make_any;
use async_dag::InsertErrorKind;
use async_dag::TupleOption;
use async_dag::TypeInfo;

fn info_i32() -> TypeInfo {
    TypeInfo::of_named::<i32>("i32")
}

fn info_f32() -> TypeInfo {
    TypeInfo::of_named::<f32>("f32")
}

#[test]
fn test_mismatch_type_name() {
    let mut option: TupleOption<i64> = TupleOption::new(vec![info_i32()]);
    let error = option.insert(0, make_any(0, info_f32())).unwrap_err();
    let expected_name = match error.kind {
        InsertErrorKind::TypeMismatch { expected_name, .. } => expected_name,
        _ => panic!("Expecting TypeMismatch"),
    };
    assert!(expected_name.contains("i32"));
}

#[test]
fn tuple_test_mismatch_type_name() {
    let mut option: TupleOption<i64> = TupleOption::new(vec![info_i32()]);
    let error = option.insert(0, make_any(0, info_f32())).unwrap_err();
    let expected_name = match error.kind {
        InsertErrorKind::TypeMismatch { expected_name, .. } => expected_name,
        _ => panic!("Expecting TypeMismatch"),
    };
    assert!(expected_name.contains("i32"));
}

#[test]
fn test_insert_out_of_range() {
    let mut option: TupleOption<i64> = TupleOption::new(vec![info_i32()]);
    let error = option.insert(1, make_any(7, info_i32())).unwrap_err();
    assert!(matches!(error.kind, InsertErrorKind::OutOfRange));
    assert_eq!(error.value.data, 7);
}

#[test]
fn test_insert_then_take() {
    let mut option: TupleOption<i64> = TupleOption::new(vec![info_i32(), info_i32()]);
    assert_eq!(option.first_none(), Some(0));
    option.insert(0, make_any(5, info_i32())).unwrap();
    assert_eq!(option.first_none(), Some(1));
    let error = option.take().unwrap_err();
    assert_eq!(error.index, 1);
    option.insert(1, make_any(6, info_i32())).unwrap();
    assert_eq!(option.first_none(), None);
    let values = option.take().unwrap();
    assert_eq!(values, vec![5, 6]);
    assert_eq!(option.first_none(), Some(0));
}

#[test]
fn test_downcast_round_trip() {
    let carrier = make_any(41i64, info_i32());
    let back = downcast(carrier, &info_i32()).unwrap();
    assert_eq!(back, 41);
}

#[test]
fn test_downcast_mismatch_returns_original() {
    let carrier = make_any(41i64, info_i32());
    let original = downcast(carrier, &info_f32()).unwrap_err();
    assert_eq!(original.data, 41);
    assert_eq!(original.info.id(), info_i32().id());
}

#[test]
fn test_fingerprints_compare_by_identity() {
    assert_eq!(TypeInfo::of::<i32>().id(), info_i32().id());
    assert_ne!(info_i32().id(), info_f32().id());
    assert_eq!(info_i32().name(), "i32");
}

#[test]
fn test_curried_task_call_before_ready() {
    let task = TryTask::new(9, vec![info_i32(), info_i32()], info_i32());
    let mut curried: CurriedTask<i64> = CurriedTask::new(task);
    assert_eq!(curried.num_inputs(), 2);
    assert!(!curried.ready());
    curried.curry(1, make_any(8, info_i32())).unwrap();
    let error = curried.call().unwrap_err();
    assert_eq!(error.index, 0);
}

#[test]
fn test_curried_task_call_when_ready() {
    let task = TryTask::new(9, vec![info_i32(), info_i32()], info_i32());
    let mut curried: CurriedTask<i64> = CurriedTask::new(task);
    curried.curry(0, make_any(7, info_i32())).unwrap();
    curried.curry(1, make_any(8, info_i32())).unwrap();
    assert!(curried.ready());
    assert_eq!(curried.input_type_info(0).unwrap().id(), info_i32().id());
    assert!(curried.input_type_info(2).is_none());
    assert_eq!(curried.output_type_info().id(), info_i32().id());
    let (tag, inputs) = curried.call().unwrap();
    assert_eq!(tag, 9);
    assert_eq!(inputs, vec![7, 8]);
}
