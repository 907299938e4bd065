use worktable::page::PAGE_SIZE;
use worktable::persist::{GeneralHeader, TestIndexesPersisted, PAGE_KIND_INTERVAL};
use worktable::row::TestRow;
use worktable::table::{TestIndexes, WorkTable, WorkTableError};

fn test_row(id: u64, test: i64, another: u64, exchange: &str) -> TestRow {
    TestRow { id, test, another, exchange: exchange.as_bytes().to_vec() }
}

fn get_test_wt() -> WorkTable {
    let mut table = WorkTable::default();
    for i in 0..100u64 {
        let pk = table.get_next_pk();
        let row = test_row(pk, i as i64, i, if i % 2 == 0 { "first" } else { "second" });
        table.insert(row).unwrap();
    }
    table
}

fn get_test_wt_without_secondary_index_entries() -> WorkTable {
    WorkTable::default()
}

fn rebuild_indexes(table: &WorkTable) -> TestIndexes {
    let file = table.persist().unwrap();
    let mut header = GeneralHeader {
        page_id: 1,
        previous_id: 0,
        next_id: 0,
        space_left: 0,
        page_kind: PAGE_KIND_INTERVAL,
    };
    let persisted = table.indexes.get_persisted_index(&mut header).unwrap();
    let intervals = persisted.get_intervals();
    let parsed = TestIndexesPersisted::parse_from_file(file.as_slice(), &intervals).unwrap();
    TestIndexes::from_persisted(&parsed)
}

#[test]
fn test_persist() {
    let table = get_test_wt();

    // the snapshot is a pure function of the table: two runs give the file
    // byte for byte
    let file_a = table.persist().unwrap();
    let file_b = table.persist().unwrap();
    assert_eq!(file_a, file_b);
    assert!(file_a.len() % PAGE_SIZE == 0);
    assert!(file_a.len() >= 3 * PAGE_SIZE);
}

#[test]
fn test_persist_without_secondary_indexes() {
    let table = get_test_wt_without_secondary_index_entries();

    let file_a = table.persist().unwrap();
    let file_b = table.persist().unwrap();
    assert_eq!(file_a, file_b);
    // interval table page plus one empty page per declared index
    assert_eq!(file_a.len(), 3 * PAGE_SIZE);
}

#[test]
fn persist_round_trip_restores_index_contents() {
    let table = get_test_wt();
    let rebuilt = rebuild_indexes(&table);

    let restored = WorkTable {
        data: table.data,
        pk_map: table.pk_map,
        indexes: rebuilt,
        pk_gen: table.pk_gen,
        lock_map: table.lock_map,
    };
    for i in 0..100i64 {
        let row = restored.select_by_test(i).unwrap();
        assert_eq!(row.test, i);
        assert_eq!(row.another, i as u64);
    }
    let firsts = restored.select_by_exchange(&b"first".to_vec()).unwrap();
    assert_eq!(firsts.len(), 50);
    let seconds = restored.select_by_exchange(&b"second".to_vec()).unwrap();
    assert_eq!(seconds.len(), 50);
}

#[test]
fn persist_many_rows_round_trip() {
    let mut table = WorkTable::default();
    for i in 0..10000u64 {
        let pk = table.get_next_pk();
        let row = test_row(pk, i as i64, i, &format!("x{}", i));
        table.insert(row).unwrap();
    }
    let rebuilt = rebuild_indexes(&table);
    let restored = WorkTable {
        data: table.data,
        pk_map: table.pk_map,
        indexes: rebuilt,
        pk_gen: table.pk_gen,
        lock_map: table.lock_map,
    };
    for pk in 0..10000u64 {
        let row = restored.select_by_test(pk as i64).unwrap();
        assert_eq!(row.id, pk);
        let bucket = restored.select_by_exchange(&format!("x{}", pk).into_bytes()).unwrap();
        assert_eq!(bucket.len(), 1);
        assert_eq!(bucket[0].id, pk);
    }
}

#[test]
fn oversized_bucket_splits_across_pages() {
    let mut table = WorkTable::default();
    // one shared exchange key collects more links than one page can hold,
    // so its bucket is split across pages and reassembled on load
    for i in 0..400u64 {
        let pk = table.get_next_pk();
        table.insert(test_row(pk, i as i64, i, "shared")).unwrap();
    }
    let rebuilt = rebuild_indexes(&table);
    let restored = WorkTable {
        data: table.data,
        pk_map: table.pk_map,
        indexes: rebuilt,
        pk_gen: table.pk_gen,
        lock_map: table.lock_map,
    };
    let bucket = restored.select_by_exchange(&b"shared".to_vec()).unwrap();
    assert_eq!(bucket.len(), 400);
    for row in &bucket {
        assert_eq!(row.exchange, b"shared".to_vec());
    }
}

#[test]
fn persist_rejects_oversized_key() {
    // a key too long for any page cannot be persisted at all
    let mut exchange_idx = worktable::index::non_unique_index_new();
    let long_key = vec![7u8; 5000];
    worktable::index::non_unique_index_add(
        &mut exchange_idx,
        &long_key,
        worktable::link::PageLink {
            page_id: worktable::link::PageId(0),
            offset: 0,
            length: 1,
        },
    );
    let indexes = TestIndexes { test_idx: worktable::index::unique_index_new(), exchange_idx };
    let mut header = GeneralHeader {
        page_id: 1,
        previous_id: 0,
        next_id: 0,
        space_left: 0,
        page_kind: PAGE_KIND_INTERVAL,
    };
    let res = indexes.get_persisted_index(&mut header);
    assert!(matches!(res, Err(WorkTableError::SerializeError)));
}

#[test]
fn interval_table_covers_emitted_pages() {
    let table = get_test_wt();
    let mut header = GeneralHeader {
        page_id: 1,
        previous_id: 0,
        next_id: 0,
        space_left: 0,
        page_kind: PAGE_KIND_INTERVAL,
    };
    let persisted = table.indexes.get_persisted_index(&mut header).unwrap();
    assert_eq!(header.next_id, 2);
    let intervals = persisted.get_intervals();
    assert_eq!(intervals.len(), 2);
    assert_eq!(intervals[0].0, b"test_idx".to_vec());
    assert_eq!(intervals[1].0, b"exchange_idx".to_vec());
    let iv_u = intervals[0].1[0];
    let iv_n = intervals[1].1[0];
    // the chains are consecutive: the unique index first, starting at page 2
    assert_eq!(iv_u.0, 2);
    assert_eq!(iv_u.1 + 1, iv_n.0);
    assert_eq!(
        (iv_u.1 - iv_u.0 + 1) as usize + (iv_n.1 - iv_n.0 + 1) as usize,
        persisted.test_idx.len() + persisted.exchange_idx.len()
    );
    // chain continuity: each page points forward to its successor
    let mut expected = 2u32;
    for page in &persisted.test_idx {
        assert_eq!(page.header.page_id, expected);
        assert_eq!(page.header.previous_id, expected - 1);
        expected += 1;
    }
    for page in &persisted.exchange_idx {
        assert_eq!(page.header.page_id, expected);
        assert_eq!(page.header.previous_id, expected - 1);
        expected += 1;
    }
    let last = persisted.get_last_header().unwrap();
    assert_eq!(last.page_id, expected - 1);
    assert_eq!(last.next_id, 0);
}

#[test]
fn parse_rejects_corrupt_page() {
    let table = get_test_wt();
    let mut header = GeneralHeader {
        page_id: 1,
        previous_id: 0,
        next_id: 0,
        space_left: 0,
        page_kind: PAGE_KIND_INTERVAL,
    };
    let persisted = table.indexes.get_persisted_index(&mut header).unwrap();
    let intervals = persisted.get_intervals();
    let mut file = table.persist().unwrap();
    // overstate the entry count of the first unique-index page
    let count_at = PAGE_SIZE + 18;
    file[count_at] = 0xff;
    file[count_at + 1] = 0xff;
    file[count_at + 2] = 0xff;
    file[count_at + 3] = 0xff;
    let res = TestIndexesPersisted::parse_from_file(file.as_slice(), &intervals);
    assert!(res.is_err());
}

#[test]
fn parse_rejects_missing_index_name() {
    let table = get_test_wt();
    let file = table.persist().unwrap();
    let intervals: Vec<(Vec<u8>, Vec<worktable::persist::Interval>)> = Vec::new();
    let res = TestIndexesPersisted::parse_from_file(file.as_slice(), &intervals);
    assert!(res.is_err());
}
