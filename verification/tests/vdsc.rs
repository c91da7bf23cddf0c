use vnscope::vdsc::{fos_key, price_text, FosField};

#[test]
fn board_keys_split_into_symbol_and_column() {
    assert_eq!(fos_key("VN30F240516"), Some(("VN30F2405".to_string(), 16)));
    assert_eq!(fos_key("VN30F2405x"), Some(("VN30F2405".to_string(), 0)));
    assert_eq!(fos_key("VN30F2405"), Some(("VN30F2405".to_string(), 0)));
    assert_eq!(fos_key("SHORT"), None);
    assert_eq!(fos_key("VN30F240é1"), None);
}

#[test]
fn board_columns_map_to_fields() {
    assert_eq!(FosField::from_column(4), Some(FosField::PriceMinus3));
    assert_eq!(FosField::from_column(21), Some(FosField::VolumePlus3));
    assert_eq!(FosField::from_column(27), Some(FosField::SellWait));
    assert_eq!(FosField::from_column(10), None);
    assert!(FosField::PricePlus2.is_price());
    assert!(!FosField::BuyWait.is_price());
}

#[test]
fn price_cells_lose_white_space_and_commas() {
    assert_eq!(price_text("  1,234.5 \t"), "1234.5");
    assert_eq!(price_text("\u{3000}12,345,678\u{a0}"), "12345678");
    assert_eq!(price_text(",,"), "");
    assert_eq!(price_text("a , b"), "a  b");
}
