use vnscope::admin::{LimitTooLarge, Page, QueryPagingInput};

#[test]
fn schema_page_defaults_and_limit() {
    assert_eq!(QueryPagingInput { after: None, limit: None }.page(), Ok(Page { after: 0, limit: 10 }));
    assert_eq!(QueryPagingInput { after: Some(42), limit: Some(100) }.page(), Ok(Page { after: 42, limit: 100 }));
    assert_eq!(QueryPagingInput { after: None, limit: Some(101) }.page(), Err(LimitTooLarge(101)));
}
