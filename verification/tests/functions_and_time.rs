use glaredb_core::arrays::datatype::DataType;
use glaredb_core::functions::list_value::{ListValue, MixedTypes};
use glaredb_core::runtime::time::{Elapsed, PerformanceInstant};

#[test]
fn list_of_one_type() {
    assert_eq!(
        ListValue.bind(&vec![DataType::Utf8, DataType::Utf8, DataType::Utf8]),
        Ok(DataType::list(DataType::Utf8))
    );
    assert_eq!(
        ListValue.bind(&vec![DataType::list(DataType::Int64)]),
        Ok(DataType::list(DataType::list(DataType::Int64)))
    );
}

#[test]
fn empty_list_is_a_list_of_nulls() {
    assert_eq!(
        ListValue.bind(&vec![]),
        Ok(DataType::List(Box::new(DataType::Null)))
    );
}

#[test]
fn list_of_mixed_types_is_rejected() {
    assert_eq!(
        ListValue.bind(&vec![
            DataType::Int64,
            DataType::Int64,
            DataType::Utf8,
            DataType::Boolean
        ]),
        Err(MixedTypes {
            index: 2,
            got: DataType::Utf8,
            expected: DataType::Int64,
        })
    );
    assert_eq!(
        ListValue.bind(&vec![
            DataType::list(DataType::Int64),
            DataType::list(DataType::Int32)
        ]),
        Err(MixedTypes {
            index: 1,
            got: DataType::list(DataType::Int32),
            expected: DataType::list(DataType::Int64),
        })
    );
}

#[test]
fn datatypes_compare_and_copy() {
    let nested = DataType::list(DataType::list(DataType::Binary));
    assert!(nested.same(&nested.duplicate()));
    assert!(!nested.same(&DataType::list(DataType::Binary)));
    assert!(!DataType::Int8.same(&DataType::UInt8));
    assert_eq!(nested.duplicate(), nested);
}

#[test]
fn instant_from_nanos() {
    assert_eq!(
        PerformanceInstant::from_nanos(0).since_origin,
        Elapsed { secs: 0, nanos: 0 }
    );
    assert_eq!(
        PerformanceInstant::from_nanos(1_500_000_000).since_origin,
        Elapsed {
            secs: 1,
            nanos: 500_000_000
        }
    );
    assert_eq!(
        PerformanceInstant::from_nanos(999_999_999).since_origin,
        Elapsed {
            secs: 0,
            nanos: 999_999_999
        }
    );
    // More than fits: the last instant there is.
    assert_eq!(
        PerformanceInstant::from_nanos(u128::MAX).since_origin,
        Elapsed {
            secs: u64::MAX,
            nanos: 999_999_999
        }
    );
}

#[test]
fn duration_between_instants() {
    let early = PerformanceInstant::from_nanos(1_900_000_000);
    let late = PerformanceInstant::from_nanos(3_100_000_000);
    assert_eq!(
        late.duration_since(early),
        Elapsed {
            secs: 1,
            nanos: 200_000_000
        }
    );
    // No time has passed from a later instant to an earlier one.
    assert_eq!(early.duration_since(late), Elapsed { secs: 0, nanos: 0 });
    assert_eq!(late.duration_since(late), Elapsed { secs: 0, nanos: 0 });
    let later = PerformanceInstant::from_nanos(3_100_000_001);
    assert_eq!(later.duration_since(late), Elapsed { secs: 0, nanos: 1 });
}
