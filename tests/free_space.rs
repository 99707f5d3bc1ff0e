use db_engine::error::DbError;
use db_engine::free_space::FreeSpace;

#[test]
fn valid_usage() {
    let free_space1 = FreeSpace::new(1, 10, 11);
    let free_space2 = FreeSpace::new(0, 0, 10);
    assert_eq!(
        free_space1,
        Ok(FreeSpace {
            page: 1,
            begin: 10,
            end: 11
        })
    );
    assert_eq!(
        free_space2,
        Ok(FreeSpace {
            page: 0,
            begin: 0,
            end: 10
        })
    );
    assert_eq!(free_space1.unwrap().free_space(), 1);
    assert_eq!(free_space2.unwrap().free_space(), 10);
}

#[test]
fn move_begining() {
    let mut free_space1 = FreeSpace::new(1, 10, 11).unwrap();
    assert_eq!(free_space1.move_begining(0), Ok(false));
    assert_eq!(free_space1.move_begining(2), Err(()));
    assert_eq!(free_space1.move_begining(1), Ok(true));
    assert_eq!(free_space1.move_begining(1), Err(()));
    assert_eq!(free_space1.move_begining(0), Ok(true));
    let mut free_space2 = FreeSpace::new(0, 0, 10).unwrap();
    assert_eq!(free_space2.move_begining(7), Ok(false));
    assert_eq!(free_space2.move_begining(4), Err(()));
    assert_eq!(free_space2.move_begining(2), Ok(false));
    assert_eq!(free_space2.move_begining(1), Ok(true));
}

#[test]
fn wrong_format() {
    assert!(FreeSpace::new(1, 10, 10).is_err());
    assert!(FreeSpace::new(123, 4, 0).is_err());
}

#[test]
fn free_space_serialization_deserialization() {
    let free_space_vec = vec![
        FreeSpace::new(0, 2, 10).unwrap(),
        FreeSpace::new(1, 0, 3).unwrap(),
        FreeSpace::new(3, 0, 10).unwrap(),
    ];
    for free_space in &free_space_vec {
        assert_eq!(FreeSpace::deserialize(&free_space.serialize()), *free_space);
    }
    assert_eq!(
        FreeSpace::deserialize_multiple(&FreeSpace::serialize_multiple(&free_space_vec))
            .unwrap(),
        free_space_vec
    )
}

#[test]
fn interval_bytes_are_little_endian() {
    let f = FreeSpace::new(0x0102, 3, 0x0400).unwrap();
    assert_eq!(f.serialize(), [2, 1, 3, 0, 0, 4]);
}

#[test]
fn ledger_length_must_be_multiple_of_six() {
    assert_eq!(FreeSpace::deserialize_multiple(&[0, 0, 0, 0, 1]), Err(DbError::CorruptedData));
    assert_eq!(FreeSpace::deserialize_multiple(&[]), Ok(vec![]));
}

#[test]
fn extend_end_and_empty_interval_error() {
    let mut f = FreeSpace::new(2, 1, 3).unwrap();
    f.extend_end(4);
    assert_eq!(f, FreeSpace { page: 2, begin: 1, end: 7 });
    assert_eq!(FreeSpace::new(0, 5, 5), Err(DbError::EmptyInterval));
}
