use vnscope::status::{InvalidStatus, ItemStatus, LotStatus, SaleStatus};

#[test]
fn lot_status_codes_and_names() {
    for (code, name) in [
        (0, "Unavailable"),
        (1, "On planing"),
        (2, "On transporting"),
        (3, "Available"),
        (4, "Outdated"),
        (5, "Being returned"),
    ] {
        let s = LotStatus::try_from_code(code).unwrap();
        assert_eq!(s.name(), name);
        assert_eq!(s.code(), code);
        assert_eq!(LotStatus::try_from_name(name), Ok(s));
    }
    assert_eq!(LotStatus::try_from_code(6), Err(InvalidStatus::Code(6)));
    assert_eq!(
        LotStatus::try_from_name("Planing"),
        Err(InvalidStatus::Name("Planing".to_string()))
    );
}

#[test]
fn item_status_codes_and_names() {
    assert_eq!(ItemStatus::try_from_code(4), Ok(ItemStatus::Saled));
    assert_eq!(ItemStatus::Saled.name(), "Being saled");
    assert_eq!(ItemStatus::Damaged.name(), "Being damaged");
    assert_eq!(ItemStatus::try_from_name("Being saled"), Ok(ItemStatus::Saled));
    assert_eq!(ItemStatus::try_from_name("Outdated"), Ok(ItemStatus::Outdated));
    assert_eq!(ItemStatus::Available.code(), 1);
    assert_eq!(ItemStatus::try_from_code(-1), Err(InvalidStatus::Code(-1)));
    // an item written with a status name reads back as that status
    let written = ItemStatus::Saled.name().to_string();
    assert_eq!(ItemStatus::try_from_name(&written).unwrap().name(), "Being saled");
}

#[test]
fn sale_status_codes_are_read_back_shifted() {
    assert_eq!(SaleStatus::Done.code(), 5);
    assert_eq!(SaleStatus::Paid.code(), 1);
    // the table that reads codes back differs from the declaration order
    assert_eq!(SaleStatus::try_from_code(1), Ok(SaleStatus::Done));
    assert_eq!(SaleStatus::try_from_code(5), Ok(SaleStatus::Refunded));
    assert_eq!(SaleStatus::try_from_code(0), Ok(SaleStatus::Failed));
    assert_eq!(SaleStatus::Refunded.name(), "Refunded");
    assert_eq!(SaleStatus::try_from_code(9), Err(InvalidStatus::Code(9)));
}
