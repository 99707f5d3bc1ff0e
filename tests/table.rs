use db_engine::dbtype::Type;
use db_engine::error::DbError;
use db_engine::field::Field;
use db_engine::filters::{Filter, FilterOption};
use db_engine::free_space::FreeSpace;
use db_engine::index::Index;
use db_engine::ledger::{allocate, live_slots, reclaim};
use db_engine::position::DataPosition;
use db_engine::table::{page_count_bytes, read_page_count, Table};
use db_engine::table_metadata::TableMetadata;

fn field(name: &str, type_: Type, nullable: bool) -> Field {
    Field { name: String::from(name), type_, nullable }
}

fn people() -> Table {
    let fields = vec![field("id", Type::U32(0), false), field("name", Type::Varchar(10, String::new()), true)];
    let metadata = TableMetadata::new(fields, 0, vec![0]).unwrap();
    assert_eq!(metadata.record_size(), 14);
    Table::create(metadata)
}

fn person(id: u32, name: &str) -> Vec<Type> {
    vec![Type::U32(id), Type::Varchar(10, String::from(name))]
}

fn equal(name: &str, value: Type) -> FilterOption {
    FilterOption::new(field(name, value, false), Filter::Equal).unwrap()
}

fn sorted_ids(records: &[Vec<Type>]) -> Vec<u32> {
    let mut ids: Vec<u32> = records
        .iter()
        .map(|r| match r[0] {
            Type::U32(id) => id,
            _ => panic!("id is not a u32"),
        })
        .collect();
    ids.sort();
    ids
}

#[test]
fn scenario_insert_select_delete() {
    let mut table = people();
    table.add_records(&[person(1, "a"), person(2, "b"), person(3, "c")]).unwrap();
    let all = table.get_records(&[]).unwrap();
    assert_eq!(all.len(), 3);
    assert_eq!(sorted_ids(&all), vec![1, 2, 3]);

    assert_eq!(table.add_records(&[person(2, "x")]), Err(DbError::UniqueConstraintViolation));
    assert_eq!(table.get_records(&[]).unwrap().len(), 3);

    table.delete_records(&[equal("id", Type::U32(2))]).unwrap();
    let rest = table.get_records(&[]).unwrap();
    assert_eq!(sorted_ids(&rest), vec![1, 3]);
    assert_eq!(table.indexes[0].positions_of(&Type::U32(2)), vec![]);
    // the second record sat in slot 1 (byte 14) of page 0
    assert_eq!(
        table.ledger,
        vec![FreeSpace { page: 0, begin: 1, end: 2 }, FreeSpace { page: 0, begin: 3, end: 292 }]
    );
}

#[test]
fn failed_insert_writes_nothing() {
    let mut table = people();
    table.add_records(&[person(1, "a")]).unwrap();
    let ledger = table.ledger.clone();
    let page = table.page_bytes[0].clone();
    assert_eq!(
        table.add_records(&[person(5, "e"), person(1, "z")]),
        Err(DbError::UniqueConstraintViolation)
    );
    assert_eq!(table.ledger, ledger);
    assert_eq!(table.page_bytes[0], page);
    assert_eq!(table.indexes[0].positions_of(&Type::U32(5)), vec![]);
}

#[test]
fn index_lists_inserted_and_drops_deleted() {
    let mut table = people();
    table.add_records(&[person(10, "p"), person(11, "q")]).unwrap();
    assert_eq!(table.indexes[0].positions_of(&Type::U32(11)), vec![DataPosition { page: 0, cell: 14 }]);
    table.delete_records(&[equal("id", Type::U32(10))]).unwrap();
    assert_eq!(table.indexes[0].positions_of(&Type::U32(10)), vec![]);
    assert_eq!(table.indexes[0].positions_of(&Type::U32(11)), vec![DataPosition { page: 0, cell: 14 }]);
}

#[test]
fn indexed_and_scanned_filters_agree() {
    let fields = vec![
        field("id", Type::U32(0), false),
        field("tag", Type::U8(0), false),
        field("copy", Type::U8(0), false),
    ];
    let metadata = TableMetadata::new(fields, 0, vec![0, 1]).unwrap();
    let mut table = Table::create(metadata);
    let rows: Vec<Vec<Type>> =
        (0..20u32).map(|i| vec![Type::U32(i), Type::U8((i % 3) as u8), Type::U8((i % 3) as u8)]).collect();
    table.add_records(&rows).unwrap();
    let by_index = table.get_records(&[equal("tag", Type::U8(1))]).unwrap();
    let by_scan = table.get_records(&[equal("copy", Type::U8(1))]).unwrap();
    assert_eq!(sorted_ids(&by_index), vec![1, 4, 7, 10, 13, 16, 19]);
    assert_eq!(sorted_ids(&by_index), sorted_ids(&by_scan));
    let both = table.get_records(&[equal("tag", Type::U8(2)), equal("id", Type::U32(5))]).unwrap();
    assert_eq!(sorted_ids(&both), vec![5]);
    assert_eq!(table.get_records(&[equal("tag", Type::U8(9))]).unwrap().len(), 0);
}

#[test]
fn filter_errors() {
    let table = people();
    assert_eq!(table.get_records(&[equal("nope", Type::U32(1))]), Err(DbError::UnknownField));
    let less = FilterOption::new(field("id", Type::U32(1), false), Filter::Less).unwrap();
    assert_eq!(table.get_records(&[less]), Err(DbError::UnsupportedFilter));
}

#[test]
fn records_that_do_not_fit_are_refused() {
    let mut table = people();
    assert_eq!(table.add_records(&[vec![Type::U32(1)]]), Err(DbError::InvalidSchema));
    assert_eq!(table.add_records(&[vec![Type::U64(1), Type::Varchar(10, String::new())]]), Err(DbError::InvalidSchema));
}

#[test]
fn new_pages_are_added_when_full() {
    let mut table = people();
    let rows: Vec<Vec<Type>> = (0..300u32).map(|i| person(i, "n")).collect();
    table.add_records(&rows).unwrap();
    assert_eq!(table.pages, 2);
    assert_eq!(table.page_bytes.len(), 2);
    assert_eq!(table.ledger, vec![FreeSpace { page: 1, begin: 8, end: 292 }]);
    assert_eq!(table.get_records(&[]).unwrap().len(), 300);
    table.clear();
    assert_eq!(table.pages, 1);
    assert_eq!(table.get_records(&[]).unwrap().len(), 0);
    assert_eq!(table.indexes[0].positions_of(&Type::U32(3)), vec![]);
}

#[test]
fn ledger_allocation_and_reclaim() {
    let ledger = vec![FreeSpace { page: 0, begin: 2, end: 4 }, FreeSpace { page: 1, begin: 0, end: 1 }];
    let a = allocate(&ledger, 2, 4, 4).unwrap();
    assert_eq!(a.cells, vec![(0, 2), (0, 3), (1, 0), (2, 0)]);
    assert_eq!(a.pages, 3);
    assert_eq!(a.ledger, vec![FreeSpace { page: 2, begin: 1, end: 4 }]);
    let merged = reclaim(&a.ledger, &[(2, 0), (0, 3), (0, 1)], 3, 4);
    assert_eq!(
        merged,
        vec![FreeSpace { page: 0, begin: 1, end: 2 }, FreeSpace { page: 0, begin: 3, end: 4 }, FreeSpace {
            page: 2,
            begin: 0,
            end: 4
        }]
    );
    let live = live_slots(&merged, 3, 4);
    assert_eq!(live, vec![(0, 0), (0, 2), (1, 0), (1, 1), (1, 2), (1, 3)]);
}

#[test]
fn index_bytes_round_trip() {
    let mut index = Index::new();
    index.insert(&Type::Varchar(4, String::from("ab")), DataPosition { page: 3, cell: 28 });
    index.insert(&Type::I16(-5), DataPosition { page: 0, cell: 0 });
    index.insert(&Type::Varchar(4, String::from("ab")), DataPosition { page: 1, cell: 14 });
    let bytes = index.to_bytes().unwrap();
    assert!(!bytes.is_empty());
    let back = Index::from_bytes(&bytes).unwrap();
    assert_eq!(back.len(), 2);
    assert_eq!(
        back.positions_of(&Type::Varchar(4, String::from("ab"))),
        vec![DataPosition { page: 3, cell: 28 }, DataPosition { page: 1, cell: 14 }]
    );
    assert_eq!(back.positions_of(&Type::I16(-5)), vec![DataPosition { page: 0, cell: 0 }]);
    assert!(Index::from_bytes(&[0xff, 0xff, 0xff]).is_err());
}

#[test]
fn page_count_round_trip() {
    assert_eq!(page_count_bytes(258), vec![2, 1, 0, 0, 0, 0, 0, 0]);
    assert_eq!(read_page_count(&page_count_bytes(77)), Ok(77));
    assert_eq!(read_page_count(&[1, 2, 3]), Err(DbError::CorruptedData));
}

#[test]
fn schema_round_trip_and_rules() {
    let fields = vec![field("id", Type::U32(0), false), field("name", Type::Varchar(10, String::new()), true)];
    let metadata = TableMetadata::new(fields, 0, vec![]).unwrap();
    assert_eq!(metadata.indexes_idx(), &[0]);
    let bytes = metadata.serialize().unwrap();
    let back = TableMetadata::deserialize(&bytes).unwrap();
    assert_eq!(back.record_size(), 14);
    assert_eq!(back.fields().len(), 2);
    assert_eq!(back.fields()[1].type_, Type::Varchar(10, String::new()));
    assert_eq!(back.serialize().unwrap(), bytes);
    assert_eq!(TableMetadata::deserialize(&bytes[..5]).unwrap_err(), DbError::CorruptedData);

    let nullable_pk = vec![field("id", Type::U32(0), true)];
    assert_eq!(TableMetadata::new(nullable_pk, 0, vec![]).unwrap_err(), DbError::InvalidSchema);
    let bad_pk = vec![field("id", Type::U32(0), false)];
    assert_eq!(TableMetadata::new(bad_pk, 1, vec![]).unwrap_err(), DbError::InvalidSchema);
    let bad_index = vec![field("id", Type::U32(0), false)];
    assert_eq!(TableMetadata::new(bad_index, 0, vec![3]).unwrap_err(), DbError::InvalidSchema);
    let two_narrow = vec![
        field("id", Type::U32(0), false),
        field("a", Type::Varchar(10, String::new()), false),
        field("b", Type::Varchar(12, String::new()), false),
    ];
    assert_eq!(TableMetadata::new(two_narrow, 0, vec![]).unwrap_err(), DbError::InvalidSchema);
    let two_wide = vec![
        field("id", Type::U32(0), false),
        field("a", Type::Varchar(255, String::new()), false),
        field("b", Type::Varchar(255, String::new()), false),
    ];
    let wide = TableMetadata::new(two_wide, 0, vec![]).unwrap();
    let back = TableMetadata::deserialize(&wide.serialize().unwrap()).unwrap();
    assert_eq!(back.record_size(), 514);
    assert_eq!(back.fields()[2].type_, Type::Varchar(255, String::new()));
    let long_name = "x".repeat(256);
    assert_eq!(Field::new(long_name, Type::U8(0), false).unwrap_err(), DbError::InvalidSchema);
}

#[test]
fn field_bytes() {
    let f = field("ab", Type::U16(0), true);
    assert_eq!(f.serialize(), vec![2, b'a', b'b', 7, 1]);
    let v = field("v", Type::Varchar(9, String::new()), false);
    let bytes = v.serialize();
    assert_eq!(bytes, vec![1, b'v', 11, 0]);
    let (back, next) = Field::deserialize(&bytes, 0).unwrap();
    assert_eq!(back, field("v", Type::Varchar(255, String::new()), false));
    assert_eq!(next, 4);
    let (u, next) = Field::deserialize(&[9, 9, 2, b'a', b'b', 7, 1], 2).unwrap();
    assert_eq!(u, f);
    assert_eq!(next, 7);
    assert_eq!(Field::deserialize(&[2, b'a', b'b', 7, 2], 0).unwrap_err(), DbError::CorruptedData);
    assert_eq!(Field::deserialize(&[1, 0xff, 7, 0], 0).unwrap_err(), DbError::CorruptedData);
}

#[test]
fn table_full_error() {
    assert!(matches!(allocate(&[], 65536, 4, 1), Err(DbError::TableFull)));
    assert!(allocate(&[], 65535, 4, 4).is_ok());
}

#[test]
fn free_and_live_slots_partition_every_page() {
    let mut table = people();
    let rows: Vec<Vec<Type>> = (0..320u32).map(|i| person(i, "r")).collect();
    table.add_records(&rows).unwrap();
    for id in [0u32, 1, 5, 6, 7, 100, 299, 300] {
        table.delete_records(&[equal("id", Type::U32(id))]).unwrap();
    }
    let slots = 4096 / 14;
    let live = live_slots(&table.ledger, table.pages, slots);
    for page in 0..table.pages as u16 {
        for slot in 0..slots {
            let free = table.ledger.iter().any(|f| f.page == page && f.begin <= slot && slot < f.end);
            assert_ne!(free, live.contains(&(page, slot)));
        }
    }
    for pair in table.ledger.windows(2) {
        assert!(pair[0].page < pair[1].page || (pair[0].page == pair[1].page && pair[0].end < pair[1].begin));
    }
    assert_eq!(live.len(), 312);
    assert_eq!(table.get_records(&[]).unwrap().len(), 312);
}

#[test]
fn change_records_updates_bytes_and_indexes() {
    let fields = vec![field("id", Type::U32(0), false), field("tag", Type::U8(0), false)];
    let metadata = TableMetadata::new(fields, 0, vec![0, 1]).unwrap();
    let mut table = Table::create(metadata);
    let rows: Vec<Vec<Type>> = (0..6u32).map(|i| vec![Type::U32(i), Type::U8(0)]).collect();
    table.add_records(&rows).unwrap();
    table.change_records(&[equal("id", Type::U32(4))], 1, &Type::U8(9)).unwrap();
    let nines = table.get_records(&[equal("tag", Type::U8(9))]).unwrap();
    assert_eq!(nines, vec![vec![Type::U32(4), Type::U8(9)]]);
    assert_eq!(table.get_records(&[equal("tag", Type::U8(0))]).unwrap().len(), 5);

    assert_eq!(
        table.change_records(&[equal("id", Type::U32(1))], 0, &Type::U32(2)),
        Err(DbError::UniqueConstraintViolation)
    );
    assert_eq!(
        table.change_records(&[equal("tag", Type::U8(0))], 0, &Type::U32(50)),
        Err(DbError::UniqueConstraintViolation)
    );
    table.change_records(&[equal("id", Type::U32(1))], 0, &Type::U32(70)).unwrap();
    assert_eq!(table.get_records(&[equal("id", Type::U32(70))]).unwrap(), vec![vec![Type::U32(70), Type::U8(0)]]);
    assert_eq!(table.get_records(&[equal("id", Type::U32(1))]).unwrap().len(), 0);

    assert_eq!(table.change_records(&[], 2, &Type::U8(1)), Err(DbError::UnknownField));
    assert_eq!(table.change_records(&[], 1, &Type::U16(1)), Err(DbError::InvalidSchema));
}

#[test]
fn text_that_cannot_be_read_back_is_refused() {
    let mut table = people();
    assert_eq!(table.add_records(&[person(1, "much too long")]), Err(DbError::InvalidSchema));
    assert_eq!(table.add_records(&[person(1, "nul\0")]), Err(DbError::InvalidSchema));
    table.add_records(&[person(1, "ok")]).unwrap();
    assert_eq!(
        table.change_records(&[equal("id", Type::U32(1))], 1, &Type::Varchar(10, String::from("eleven chars"))),
        Err(DbError::InvalidSchema)
    );
    table.change_records(&[equal("id", Type::U32(1))], 1, &Type::Varchar(10, String::from("ten chars!"))).unwrap();
    assert_eq!(
        table.get_records(&[equal("name", Type::Varchar(10, String::from("ten chars!")))]).unwrap(),
        vec![person(1, "ten chars!")]
    );
}

#[test]
fn corrupted_index_length_is_an_error() {
    let huge = [253u8, 255, 255, 255, 255, 255, 255, 255, 15];
    assert!(matches!(Index::from_bytes(&huge), Err(DbError::CorruptedData)));
}

#[test]
fn index_keys_read_back_in_order() {
    let mut index = Index::new();
    for v in [5u32, 1, 9, 3] {
        index.insert(&Type::U32(v), DataPosition { page: 0, cell: (v * 4) as u16 });
    }
    let back = Index::from_bytes(&index.to_bytes().unwrap()).unwrap();
    assert_eq!(back.len(), 4);
    for v in [1u32, 3, 5, 9] {
        assert_eq!(back.positions_of(&Type::U32(v)), vec![DataPosition { page: 0, cell: (v * 4) as u16 }]);
    }
}
