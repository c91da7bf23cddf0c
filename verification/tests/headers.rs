use vnscope::headers::{
    ChatHeaders, CmsHeaders, HeaderError, HeaderField, HeaderKind, InvestingHeaders, SeoHeaders,
    WmsHeaders, XHubSignature256, XTenantId, XUserId,
};

fn text(s: &str) -> HeaderField {
    HeaderField::Text(s.to_string())
}

#[test]
fn chat_headers_need_an_integer_tenant() {
    assert_eq!(ChatHeaders::from_fields(&text("12")).unwrap().tenant_id, 12);
    let missing = ChatHeaders::from_fields(&HeaderField::Missing).unwrap_err();
    assert_eq!(missing, HeaderError::Missing(HeaderKind::TenantId));
    assert_eq!(missing.message(), "Missing x-tenant-id header");
    let opaque = ChatHeaders::from_fields(&HeaderField::Opaque).unwrap_err();
    assert_eq!(opaque.message(), "Invalid x-tenant-id: must be a valid string");
    let bad = ChatHeaders::from_fields(&text("abc")).unwrap_err();
    assert_eq!(bad.message(), "Invalid x-tenant-id: must be a valid integer");
}

#[test]
fn wms_headers_read_guest_flag() {
    let h = WmsHeaders::from_fields(&text("true"), &text("3")).unwrap();
    assert!(h.is_guess);
    assert_eq!(h.tenant_id, 3);
    let h = WmsHeaders::from_fields(&text("yes"), &text("-3")).unwrap();
    assert!(!h.is_guess);
    assert_eq!(h.tenant_id, -3);
    let h = WmsHeaders::from_fields(&HeaderField::Missing, &text("0")).unwrap();
    assert!(!h.is_guess);
    assert!(WmsHeaders::from_fields(&text("true"), &HeaderField::Missing).is_err());
}

#[test]
fn cms_headers_keep_text_signature() {
    let h = CmsHeaders::from_fields(&text("5"), &text("sig")).unwrap();
    assert_eq!(h.tenant_id, 5);
    assert_eq!(h.hubspot_sign, Some("sig".to_string()));
    let h = CmsHeaders::from_fields(&text("5"), &HeaderField::Opaque).unwrap();
    assert_eq!(h.hubspot_sign, None);
}

#[test]
fn seo_headers_check_in_order() {
    let h = SeoHeaders::from_fields(
        &text("agent"),
        &text("example.com"),
        &text("guest"),
        &text("mobile"),
        &HeaderField::Missing,
    )
    .unwrap();
    assert_eq!(h.tenant_id, 0);
    assert_eq!(h.host, "example.com");
    let e = SeoHeaders::from_fields(
        &HeaderField::Missing,
        &HeaderField::Missing,
        &text("guest"),
        &text("mobile"),
        &text("1"),
    )
    .unwrap_err();
    assert_eq!(e.message(), "Missing User-Agent header");
    let e = SeoHeaders::from_fields(
        &text("agent"),
        &HeaderField::Opaque,
        &text("guest"),
        &text("mobile"),
        &text("1"),
    )
    .unwrap_err();
    assert_eq!(e.message(), "Invalid host: must be a valid string");
    let e = SeoHeaders::from_fields(
        &text("agent"),
        &text("h"),
        &text("guest"),
        &HeaderField::Missing,
        &text("1"),
    )
    .unwrap_err();
    assert_eq!(e.message(), "Missing X-Device-Type header");
    let e = SeoHeaders::from_fields(
        &text("agent"),
        &text("h"),
        &text("guest"),
        &text("desktop"),
        &text("x1"),
    )
    .unwrap_err();
    assert_eq!(e, HeaderError::NotInteger(HeaderKind::TenantId));
}

#[test]
fn typed_headers_decode_and_encode() {
    assert_eq!(XTenantId::decode(&text("-17")), Ok(XTenantId(-17)));
    assert!(XTenantId::decode(&text("1.5")).is_err());
    assert!(XTenantId::decode(&HeaderField::Missing).is_err());
    assert_eq!(XTenantId(42).encode(), "42");
    let t = XTenantId(-9000);
    assert_eq!(XTenantId::decode(&HeaderField::Text(t.encode())), Ok(XTenantId(-9000)));
    assert_eq!(XUserId::decode(&HeaderField::Missing), Ok(XUserId(None)));
    assert_eq!(XUserId::decode(&text("")), Ok(XUserId(None)));
    assert_eq!(XUserId::decode(&text("u1")), Ok(XUserId(Some("u1".to_string()))));
    assert!(XUserId::decode(&HeaderField::Opaque).is_err());
    assert_eq!(XUserId(Some("u1".to_string())).encode(), Some("u1".to_string()));
    assert_eq!(
        XHubSignature256::decode(&text("sha256=ab")),
        Ok(XHubSignature256("sha256=ab".to_string()))
    );
    assert!(XHubSignature256::decode(&HeaderField::Missing).is_err());
    let h = InvestingHeaders::from_fields(&text("8"), &text("me")).unwrap();
    assert_eq!(h.tenant_id.value(), 8);
    assert_eq!(h.user_id, XUserId(Some("me".to_string())));
    assert!(InvestingHeaders::from_fields(&text("8"), &HeaderField::Opaque).is_err());
}
