use worktable::link::{PageId, PageLink, LINK_LENGTH};
use worktable::page::{DataPage, DATA_PAGE_BODY_SIZE};
use worktable::row::TestRow;
use worktable::table::{
    AnotherByExchangeQuery, AnotherByIdQuery, AnotherByTestQuery, WorkTable, WorkTableError,
};

fn row_bytes(a: u64, b: u64) -> Vec<u8> {
    let mut v = Vec::new();
    v.extend_from_slice(&a.to_le_bytes());
    v.extend_from_slice(&b.to_le_bytes());
    v
}

fn test_row(id: u64, test: i64, another: u64, exchange: &str) -> TestRow {
    TestRow { id, test, another, exchange: exchange.as_bytes().to_vec() }
}

#[test]
fn link_length_valid() {
    let link = PageLink { page_id: PageId(1), offset: 10, length: 20 };
    let bytes = link.to_bytes();

    assert_eq!(bytes.len(), LINK_LENGTH)
}

#[test]
fn link_link_length_valid() {
    let link = PageLink { page_id: PageId(1), offset: 10, length: 20 };
    let bytes = link.to_bytes();

    assert_eq!(bytes.len(), LINK_LENGTH)
}

#[test]
fn data_page_save_row() {
    let mut page = DataPage::new(PageId(1));
    let row = row_bytes(10, 20);

    let link = page.save_row(&row).unwrap();
    assert_eq!(link.page_id, page.page_id);
    assert_eq!(link.length, 16);
    assert_eq!(link.offset, 0);

    assert_eq!(page.offset, link.length);

    let bytes = &page.body[link.offset as usize..link.length as usize];
    assert_eq!(bytes, row.as_slice())
}

#[test]
fn data_page_overwrite_row() {
    let mut page = DataPage::new(PageId(1));
    let row = row_bytes(10, 20);

    let link = page.save_row(&row).unwrap();

    let new_row = row_bytes(20, 20);
    let res = page.save_row_by_link(&new_row, link).unwrap();

    assert_eq!(res, link);

    let bytes = &page.body[link.offset as usize..link.length as usize];
    assert_eq!(bytes, new_row.as_slice())
}

#[test]
fn data_page_full() {
    let mut page = DataPage::new(PageId(1));
    page.offset = DATA_PAGE_BODY_SIZE as u32 - 16;
    let row = row_bytes(10, 20);
    let _ = page.save_row(&row).unwrap();

    let new_row = row_bytes(20, 20);
    let res = page.save_row(&new_row);

    assert!(res.is_err());
}

#[test]
fn data_page_save_many_rows() {
    let mut page = DataPage::new(PageId(1));

    let mut rows = Vec::new();
    let mut links = Vec::new();
    for i in 1..10 {
        let row = row_bytes(10 + i, 20 + i);
        rows.push(row.clone());

        let link = page.save_row(&row);
        links.push(link)
    }

    for (i, link) in links.into_iter().enumerate() {
        let link = link.unwrap();

        let bytes = &page.body[link.offset as usize..(link.offset + link.length) as usize];
        let row = rows.get(i).unwrap();

        assert_eq!(row.as_slice(), bytes)
    }
}

#[test]
fn data_page_get_row_ref() {
    let mut page = DataPage::new(PageId(1));
    let row = row_bytes(10, 20);

    let link = page.save_row(&row).unwrap();
    let bytes = page.get_row_ref(link).unwrap();
    assert_eq!(bytes, row.as_slice())
}

#[test]
fn data_page_get_row() {
    let mut page = DataPage::new(PageId(1));
    let row = row_bytes(10, 20);

    let link = page.save_row(&row).unwrap();
    let bytes = page.get_row(link).unwrap();
    assert_eq!(bytes, row)
}

#[test]
fn insert() {
    let mut table = WorkTable::default();
    let row = test_row(table.get_next_pk(), 1, 1, "test");
    let pk = table.insert(row.clone()).unwrap();
    let selected_row = table.select(pk).unwrap();

    assert_eq!(selected_row, row);
    assert!(table.select(2).is_none())
}

#[test]
fn bench() {
    let mut table = WorkTable::default();

    let mut v = Vec::with_capacity(10000);

    for i in 0..10000 {
        let row = test_row(table.get_next_pk(), i + 1, 1, "XD");

        let a = table.insert(row).expect("TODO: panic message");
        v.push(a)
    }

    for a in v {
        table.select(a).expect("TODO: panic message");
    }
}

#[test]
fn insert_same() {
    let mut table = WorkTable::default();
    let row = test_row(table.get_next_pk(), 1, 1, "test");
    let _ = table.insert(row.clone()).unwrap();
    let res = table.insert(row.clone());
    assert!(res.is_err())
}

#[test]
fn insert_exchange_same() {
    let mut table = WorkTable::default();
    let row = test_row(table.get_next_pk(), 1, 1, "test");
    let _ = table.insert(row.clone()).unwrap();
    let row = test_row(table.get_next_pk(), 1, 1, "test");
    let res = table.insert(row.clone());
    assert!(res.is_err())
}

#[test]
fn select_by_exchange() {
    let mut table = WorkTable::default();
    let row = test_row(table.get_next_pk(), 1, 1, "test");
    let _ = table.insert(row.clone()).unwrap();
    let selected_rows = table.select_by_exchange(&b"test".to_vec()).unwrap();

    assert_eq!(selected_rows.len(), 1);
    assert!(selected_rows.contains(&row));
    assert!(table.select_by_exchange(&b"test1".to_vec()).is_err())
}

#[test]
fn select_multiple_by_exchange() {
    let mut table = WorkTable::default();
    let row = test_row(table.get_next_pk(), 1, 1, "test");
    let _ = table.insert(row.clone()).unwrap();
    let row_next = test_row(table.get_next_pk(), 2, 1, "test");
    let _ = table.insert(row_next.clone()).unwrap();
    let selected_rows = table.select_by_exchange(&b"test".to_vec()).unwrap();

    assert_eq!(selected_rows.len(), 2);
    assert!(selected_rows.contains(&row));
    assert!(selected_rows.contains(&row_next));
    assert!(table.select_by_exchange(&b"test1".to_vec()).is_err())
}

#[test]
fn select_by_test() {
    let mut table = WorkTable::default();
    let row = test_row(table.get_next_pk(), 1, 1, "test");
    let _ = table.insert(row.clone()).unwrap();
    let selected_row = table.select_by_test(1).unwrap();

    assert_eq!(selected_row, row);
    assert!(table.select_by_test(2).is_none())
}

#[test]
fn select_all_test() {
    let mut table = WorkTable::default();
    let row1 = test_row(table.get_next_pk(), 1, 1, "test");
    let _ = table.insert(row1.clone()).unwrap();
    let row2 = test_row(table.get_next_pk(), 2, 1, "test");
    let _ = table.insert(row2.clone()).unwrap();

    let all = table.select_all().unwrap();

    assert_eq!(all.len(), 2);
    assert_eq!(&all[0], &row1);
    assert_eq!(&all[1], &row2)
}

#[test]
fn mod_update() {
    let mut table = WorkTable::default();
    let row = test_row(table.get_next_pk(), 1, 1, "test");
    let pk = table.insert(row.clone()).unwrap();
    let updated = test_row(pk, 2, 3, "test");
    table.update(updated.clone()).unwrap();
    let selected_row = table.select(pk).unwrap();

    assert_eq!(selected_row, updated);
    assert!(table.select(2).is_none())
}

#[test]
fn delete() {
    let mut table = WorkTable::default();
    let row = test_row(table.get_next_pk(), 1, 1, "test");
    let pk = table.insert(row.clone()).unwrap();
    let link = table.peek_link(pk).unwrap();
    table.delete(pk).unwrap();
    let selected_row = table.select(pk);
    assert!(selected_row.is_none());
    let selected_row = table.select_by_test(1);
    assert!(selected_row.is_none());
    // the emptied bucket is dropped, so the lookup reports the key missing
    assert!(table.select_by_exchange(&b"test".to_vec()).is_err());

    let updated = test_row(table.get_next_pk(), 2, 3, "test");
    let pk = table.insert(updated.clone()).unwrap();
    let new_link = table.peek_link(pk).unwrap();

    assert_eq!(link, new_link)
}

#[test]
fn delete_and_insert_less() {
    let mut table = WorkTable::default();
    let row = test_row(table.get_next_pk(), 0, 0, "test");
    let _ = table.insert(row.clone()).unwrap();
    let row = test_row(table.get_next_pk(), 1, 1, "test1234567890");
    let pk = table.insert(row.clone()).unwrap();
    let link = table.peek_link(pk).unwrap();
    table.delete(pk).unwrap();
    let selected_row = table.select(pk);
    assert!(selected_row.is_none());

    let updated = test_row(table.get_next_pk(), 2, 3, "test1");
    let pk = table.insert(updated.clone()).unwrap();
    let new_link = table.peek_link(pk).unwrap();

    assert_ne!(link, new_link)
}

#[test]
fn delete_and_replace() {
    let mut table = WorkTable::default();
    let row = test_row(table.get_next_pk(), 0, 0, "test1");
    let _ = table.insert(row.clone()).unwrap();
    let row = test_row(table.get_next_pk(), 1, 1, "test");
    let pk = table.insert(row.clone()).unwrap();
    let link = table.peek_link(pk).unwrap();
    table.delete(pk).unwrap();
    let selected_row = table.select(pk);
    assert!(selected_row.is_none());

    let updated = test_row(table.get_next_pk(), 2, 3, "test");
    let pk = table.insert(updated.clone()).unwrap();
    let new_link = table.peek_link(pk).unwrap();

    assert_eq!(link, new_link)
}

#[test]
fn upsert() {
    let mut table = WorkTable::default();
    let row = test_row(table.get_next_pk(), 1, 1, "test");
    table.upsert(row.clone()).unwrap();
    let updated = test_row(row.id, 2, 3, "test");
    table.upsert(updated.clone()).unwrap();
    let selected_row = table.select(row.id).unwrap();

    assert_eq!(selected_row, updated);
    assert!(table.select(2).is_none())
}

#[test]
fn test_update_by_non_unique() {
    let mut table = WorkTable::default();
    let row1 = test_row(table.get_next_pk(), 1, 1, "test");
    let _ = table.insert(row1.clone()).unwrap();
    let row2 = test_row(table.get_next_pk(), 2, 1, "test");
    let _ = table.insert(row2.clone()).unwrap();

    let q = AnotherByExchangeQuery { another: 3 };
    table.update_another_by_exchange(q, &b"test".to_vec()).unwrap();

    let all = table.select_all().unwrap();

    assert_eq!(all.len(), 2);
    assert_eq!(&all[0], &test_row(0, 1, 3, "test"));
    assert_eq!(&all[1], &test_row(1, 2, 3, "test"))
}

#[test]
fn test_update_by_unique() {
    let mut table = WorkTable::default();
    let row = test_row(table.get_next_pk(), 1, 1, "test");
    let _ = table.insert(row.clone()).unwrap();

    let q = AnotherByTestQuery { another: 3 };
    table.update_another_by_test(q, 1).unwrap();

    let row = table.select_by_test(1).unwrap();

    assert_eq!(row, test_row(0, 1, 3, "test"))
}

#[test]
fn test_update_by_pk() {
    let mut table = WorkTable::default();
    let row = test_row(table.get_next_pk(), 1, 1, "test");
    let pk = table.insert(row.clone()).unwrap();

    let q = AnotherByIdQuery { another: 3 };
    table.update_another_by_id(q, pk).unwrap();

    let row = table.select_by_test(1).unwrap();

    assert_eq!(row, test_row(0, 1, 3, "test"))
}

#[test]
fn update_rejects_conflicting_unique_key() {
    let mut table = WorkTable::default();
    let row1 = test_row(table.get_next_pk(), 1, 1, "test");
    let _ = table.insert(row1.clone()).unwrap();
    let row2 = test_row(table.get_next_pk(), 2, 1, "test");
    let pk2 = table.insert(row2.clone()).unwrap();

    // moving row2's unique key onto row1's collides and changes nothing
    let res = table.update(test_row(pk2, 1, 9, "test"));
    assert!(matches!(res, Err(WorkTableError::AlreadyExists)));
    assert_eq!(table.select(pk2).unwrap(), row2);
    assert_eq!(table.select(0).unwrap(), row1);
}

#[test]
fn update_missing_key_not_found() {
    let mut table = WorkTable::default();
    let res = table.update(test_row(7, 1, 1, "test"));
    assert!(matches!(res, Err(WorkTableError::NotFound)));
    let res = table.update_another_by_id(AnotherByIdQuery { another: 1 }, 7);
    assert!(matches!(res, Err(WorkTableError::NotFound)));
    let res = table.update_another_by_test(AnotherByTestQuery { another: 1 }, 7);
    assert!(matches!(res, Err(WorkTableError::NotFound)));
    let res = table.update_another_by_exchange(AnotherByExchangeQuery { another: 1 }, &b"x".to_vec());
    assert!(matches!(res, Err(WorkTableError::NotFound)));
}

#[test]
fn delete_missing_key_not_found() {
    let mut table = WorkTable::default();
    let res = table.delete(3);
    assert!(matches!(res, Err(WorkTableError::NotFound)));
}

#[test]
fn select_all_sorted_by_pk() {
    let mut table = WorkTable::default();
    for i in 0..50u64 {
        // insert in a scrambled order
        let pk = (i * 7 + 3) % 50;
        let row = test_row(pk, pk as i64, 0, "k");
        table.insert(row).unwrap();
    }
    let all = table.select_all().unwrap();
    assert_eq!(all.len(), 50);
    for w in all.windows(2) {
        assert!(w[0].id < w[1].id);
    }
}

#[test]
fn insert_rolls_back_on_unique_conflict() {
    let mut table = WorkTable::default();
    let row1 = test_row(table.get_next_pk(), 1, 1, "a");
    table.insert(row1.clone()).unwrap();
    let before = table.select_all().unwrap();

    // same unique `test` key under a fresh primary key
    let pk2 = table.get_next_pk();
    let res = table.insert(test_row(pk2, 1, 9, "b"));
    assert!(matches!(res, Err(WorkTableError::AlreadyExists)));

    let after = table.select_all().unwrap();
    assert_eq!(before, after);
    assert!(table.select_by_exchange(&b"b".to_vec()).is_err());
}
