use vnscope::wms::{
    count_stock_entries, next_after, shard_index, ListShelvesResponse, Paging, PagingError,
    QueryPagingInput, Shelf,
};

#[test]
fn paging_defaults_and_limits() {
    let q = QueryPagingInput::default();
    assert_eq!(q.paging(), Ok(Paging { include_details: false, after: 0, limit: 10 }));
    let q = QueryPagingInput { include_details: Some(true), after: Some(30), limit: Some(100) };
    assert_eq!(q.paging(), Ok(Paging { include_details: true, after: 30, limit: 100 }));
    let q = QueryPagingInput { include_details: None, after: None, limit: Some(101) };
    assert_eq!(q.paging(), Err(PagingError::LimitTooLarge(101)));
    let q = QueryPagingInput { include_details: Some(true), after: None, limit: Some(11) };
    assert_eq!(q.detailed_paging(), Err(PagingError::DetailedLimitTooLarge(11)));
    let q = QueryPagingInput { include_details: Some(false), after: None, limit: Some(50) };
    assert_eq!(q.detailed_paging(), Ok(Paging { include_details: false, after: 0, limit: 50 }));
}

#[test]
fn next_page_cursor() {
    assert_eq!(next_after(&vec![Some(1), Some(2)], 2), Some(2));
    assert_eq!(next_after(&vec![Some(1), None], 2), None);
    assert_eq!(next_after(&vec![Some(1)], 2), None);
    let shelves = vec![
        Shelf { id: Some(4), description: None, name: Some("A".into()) },
        Shelf { id: Some(9), description: None, name: Some("B".into()) },
    ];
    let page = ListShelvesResponse::new(shelves, 2);
    assert_eq!(page.next_after, Some(9));
    assert_eq!(page.data.len(), 2);
    let page = ListShelvesResponse::new(vec![Shelf::default()], 5);
    assert_eq!(page.next_after, None);
}

#[test]
fn tenants_spread_over_shards() {
    assert_eq!(shard_index(7, 3), 1);
    assert_eq!(shard_index(0, 4), 0);
    assert_eq!(shard_index(-1, 4), (-1i32 as usize) % 4);
}

#[test]
fn stock_entries_count_valid_pairs() {
    let items = vec![(1, 10), (1, 10), (2, 10), (1, 11), (3, 10), (1, 10)];
    let counted = count_stock_entries(&items, &vec![1, 2], &vec![10]);
    assert_eq!(counted, vec![((1, 10), 3), ((2, 10), 1)]);
    assert!(count_stock_entries(&vec![], &vec![1], &vec![1]).is_empty());
}

use vnscope::status::LotStatus;
use vnscope::wms::{summarize_stocks, BadLotStatus, StockRow};

fn row(id: i32, shelf: &str, lot_id: i32, status: i32, quantity: i32) -> StockRow {
    StockRow {
        id,
        name: format!("stock {id}"),
        unit: "box".to_string(),
        shelf_name: shelf.to_string(),
        lot_id,
        lot_number: format!("L{lot_id}"),
        lot_status: status,
        lot_supplier: if lot_id % 2 == 0 { Some("acme".to_string()) } else { None },
        quantity,
    }
}

#[test]
fn stocks_are_grouped_by_id() {
    let rows = vec![row(7, "A", 1, 3, 5), row(2, "B", 2, 0, 1), row(7, "C", 3, 4, 10), row(7, "A", 4, 3, -2)];
    let stocks = summarize_stocks(&rows).unwrap();
    assert_eq!(stocks.len(), 2);
    assert_eq!(stocks[0].id, 2);
    assert_eq!(stocks[0].shelves, vec!["B".to_string()]);
    assert_eq!(stocks[0].quantity, 1);
    assert_eq!(stocks[1].id, 7);
    assert_eq!(stocks[1].name, "stock 7");
    assert_eq!(stocks[1].shelves, vec!["A".to_string(), "C".to_string()]);
    assert_eq!(stocks[1].quantity, 13);
    let lots: Vec<(i32, usize, LotStatus)> = stocks[1].lots.iter().map(|l| (l.id, l.row, l.status)).collect();
    assert_eq!(lots, vec![(1, 0, LotStatus::Available), (3, 2, LotStatus::Outdated), (4, 3, LotStatus::Available)]);
    assert_eq!(stocks[1].lots[2].supplier, Some("acme".to_string()));
    assert_eq!(stocks[1].lots[0].supplier, None);
    assert_eq!(stocks[1].lots[1].lot_number, "L3");
}

#[test]
fn unknown_lot_state_is_refused() {
    let rows = vec![row(7, "A", 1, 3, 5), row(2, "B", 9, 6, 1), row(3, "C", 8, -1, 1)];
    assert!(matches!(summarize_stocks(&rows), Err(BadLotStatus { lot_id: 9, code: 6 })));
    assert!(summarize_stocks(&vec![]).unwrap().is_empty());
}

use vnscope::status::ItemStatus;
use vnscope::wms::{plan_import, ImportError, ImportItem, ItemUpdate};

fn import(id: Option<i32>, shelf: Option<&str>, stock: Option<i32>, status: &str) -> ImportItem {
    ImportItem { id, shelf: shelf.map(|s| s.to_string()), stock_id: stock, status: status.to_string() }
}

fn shelves() -> Vec<(String, i32)> {
    vec![("A".to_string(), 1), ("B".to_string(), 2), ("A".to_string(), 3)]
}

#[test]
fn import_plan_updates_known_items() {
    let items = vec![
        import(Some(10), Some("A"), Some(7), "Available"),
        import(Some(11), Some("B"), Some(7), "Being damaged"),
        import(Some(12), Some("A"), Some(8), "Available"),
        import(Some(99), Some("B"), None, "Outdated"), // not known: skipped
        import(Some(13), Some("A"), Some(7), "Available"),
    ];
    let plan = plan_import(&items, &shelves(), &vec![10, 11, 12, 13]).unwrap();
    assert_eq!(
        plan.updates,
        vec![
            ItemUpdate { row: 0, item_id: 10, shelf_id: 3, status: ItemStatus::Available },
            ItemUpdate { row: 1, item_id: 11, shelf_id: 2, status: ItemStatus::Damaged },
            ItemUpdate { row: 2, item_id: 12, shelf_id: 3, status: ItemStatus::Available },
            ItemUpdate { row: 4, item_id: 13, shelf_id: 3, status: ItemStatus::Available },
        ]
    );
    assert_eq!(plan.counts, vec![((3, 7), 2), ((2, 7), 1), ((3, 8), 1)]);
}

#[test]
fn import_plan_refusals() {
    let known = vec![10];
    assert_eq!(plan_import(&vec![import(None, Some("A"), Some(7), "Available")], &shelves(), &known).err(), Some(ImportError::MissingId));
    assert_eq!(plan_import(&vec![import(Some(4), None, Some(7), "Available")], &shelves(), &known).err(), Some(ImportError::MissingShelf(4)));
    assert_eq!(
        plan_import(&vec![import(Some(4), Some("B"), Some(7), "Lost")], &shelves(), &known).err(),
        Some(ImportError::BadStatus("Lost".to_string()))
    );
    assert_eq!(plan_import(&vec![import(Some(10), Some("B"), None, "Available")], &shelves(), &known).err(), Some(ImportError::MissingStock));
    // An unknown item without stock is skipped, not refused.
    assert!(plan_import(&vec![import(Some(4), Some("B"), None, "Available")], &shelves(), &known).is_ok());
}

#[test]
fn barcode_states() {
    assert_eq!(vnscope::wms::barcode_state(None), "in-stock");
    assert_eq!(vnscope::wms::barcode_state(Some(3)), "sold-out");
}

#[test]
fn detailed_stock_listing_of_two_stocks() {
    let mut rows = Vec::new();
    let mut add = |id: i32, name: &str, unit: &str, shelf: &str, lot_id: i32, lot: &str, supplier: &str, quantity: i32| {
        rows.push(StockRow {
            id,
            name: name.to_string(),
            unit: unit.to_string(),
            shelf_name: shelf.to_string(),
            lot_id,
            lot_number: lot.to_string(),
            lot_status: LotStatus::Available.code(),
            lot_supplier: Some(supplier.to_string()),
            quantity,
        })
    };
    add(2, "Detailed Stock 2", "piece", "Shelf B", 12, "LOT002", "Supplier B", 10);
    add(1, "Detailed Stock 1", "kg", "Shelf A", 11, "LOT001", "Supplier A", 20);
    let stocks = summarize_stocks(&rows).unwrap();
    assert_eq!(stocks.len(), 2);
    let stock1 = &stocks[0];
    assert_eq!((stock1.name.as_str(), stock1.unit.as_str(), stock1.quantity), ("Detailed Stock 1", "kg", 20));
    assert_eq!(stock1.shelves, vec!["Shelf A".to_string()]);
    assert_eq!(stock1.lots.len(), 1);
    assert_eq!((stock1.lots[0].lot_number.as_str(), stock1.lots[0].quantity), ("LOT001", 20));
    assert_eq!(stock1.lots[0].status.name(), "Available");
    let stock2 = &stocks[1];
    assert_eq!((stock2.name.as_str(), stock2.quantity), ("Detailed Stock 2", 10));
    assert_eq!(stock2.shelves, vec!["Shelf B".to_string()]);
    assert_eq!((stock2.lots[0].lot_number.as_str(), stock2.lots[0].quantity, stock2.lots[0].row), ("LOT002", 10, 0));
}
