//! The request headers that the services read: tenant, user, signatures and client details.
//!
//! The web layer hands each header over as a [`HeaderField`]: missing, present but not
//! text, or text. Everything that is decided from that lives here.
use crate::text::{format_i64, int_text, parse_bool, parse_flag, parse_i32, parse_i64, parse_integer};
use vstd::prelude::*;

verus! {

/// What a request carries under one header name.
#[derive(Clone, Debug, PartialEq, Eq)]
pub enum HeaderField {
    /// The request has no such header.
    Missing,
    /// The header's value is not visible ASCII text.
    Opaque,
    /// The header's value, as text.
    Text(String),
}

/// The headers whose absence or malformation refuses a request.
#[derive(Clone, Copy, Debug, PartialEq, Eq, Structural)]
pub enum HeaderKind {
    TenantId,
    UserAgent,
    Host,
    UserType,
    DeviceType,
}

/// Why a request's headers were refused.
#[derive(Clone, Copy, Debug, PartialEq, Eq, Structural)]
pub enum HeaderError {
    /// The header is not there.
    Missing(HeaderKind),
    /// The header is not text.
    NotText(HeaderKind),
    /// The header is text but not an integer.
    NotInteger(HeaderKind),
}

/// Whether an `i32` header reads as an integer.
pub open spec fn reads_i32(s: Seq<char>) -> bool {
    parse_integer(s, true, i32::MIN as int, i32::MAX as int) is Some
}

/// The `i32` that a header reads as.
pub open spec fn i32_of(s: Seq<char>) -> int {
    parse_integer(s, true, i32::MIN as int, i32::MAX as int)->0
}

/// What reading a required `i32` header gives.
pub open spec fn required_i32(field: HeaderField, kind: HeaderKind) -> Result<i32, HeaderError> {
    match field {
        HeaderField::Missing => Err(HeaderError::Missing(kind)),
        HeaderField::Opaque => Err(HeaderError::NotText(kind)),
        HeaderField::Text(s) => if reads_i32(s@) {
            Ok(i32_of(s@) as i32)
        } else {
            Err(HeaderError::NotInteger(kind))
        },
    }
}

/// What reading a required text header gives.
pub open spec fn required_text(field: HeaderField, kind: HeaderKind) -> Result<Seq<char>, HeaderError> {
    match field {
        HeaderField::Missing => Err(HeaderError::Missing(kind)),
        HeaderField::Opaque => Err(HeaderError::NotText(kind)),
        HeaderField::Text(s) => Ok(s@),
    }
}

impl HeaderError {
    /// The message the services answer a refused request with.
    pub open spec fn message_of(self) -> Seq<char> {
        match self {
            HeaderError::Missing(HeaderKind::TenantId) => "Missing x-tenant-id header"@,
            HeaderError::NotText(HeaderKind::TenantId) => "Invalid x-tenant-id: must be a valid string"@,
            HeaderError::NotInteger(_) => "Invalid x-tenant-id: must be a valid integer"@,
            HeaderError::Missing(HeaderKind::UserAgent) => "Missing User-Agent header"@,
            HeaderError::NotText(HeaderKind::UserAgent) => "Invalid user-agent: must be a valid string"@,
            HeaderError::Missing(HeaderKind::Host) => "Missing Host header"@,
            HeaderError::NotText(HeaderKind::Host) => "Invalid host: must be a valid string"@,
            HeaderError::Missing(HeaderKind::UserType) => "Missing X-User-Type header"@,
            HeaderError::NotText(HeaderKind::UserType) => "Invalid x-user-type: must be a valid string"@,
            HeaderError::Missing(HeaderKind::DeviceType) => "Missing X-Device-Type header"@,
            HeaderError::NotText(HeaderKind::DeviceType) => "Invalid x-device-type: must be a valid string"@,
        }
    }

    /// The message the services answer a refused request with.
    pub fn message(&self) -> (r: &'static str)
        ensures
            r@ == self.message_of(),
    {
        match self {
            HeaderError::Missing(HeaderKind::TenantId) => "Missing x-tenant-id header",
            HeaderError::NotText(HeaderKind::TenantId) => "Invalid x-tenant-id: must be a valid string",
            HeaderError::NotInteger(_) => "Invalid x-tenant-id: must be a valid integer",
            HeaderError::Missing(HeaderKind::UserAgent) => "Missing User-Agent header",
            HeaderError::NotText(HeaderKind::UserAgent) => "Invalid user-agent: must be a valid string",
            HeaderError::Missing(HeaderKind::Host) => "Missing Host header",
            HeaderError::NotText(HeaderKind::Host) => "Invalid host: must be a valid string",
            HeaderError::Missing(HeaderKind::UserType) => "Missing X-User-Type header",
            HeaderError::NotText(HeaderKind::UserType) => "Invalid x-user-type: must be a valid string",
            HeaderError::Missing(HeaderKind::DeviceType) => "Missing X-Device-Type header",
            HeaderError::NotText(HeaderKind::DeviceType) => "Invalid x-device-type: must be a valid string",
        }
    }
}

fn read_required_i32(field: &HeaderField, kind: HeaderKind) -> (r: Result<i32, HeaderError>)
    ensures
        r == required_i32(*field, kind),
{
    match field {
        HeaderField::Missing => Err(HeaderError::Missing(kind)),
        HeaderField::Opaque => Err(HeaderError::NotText(kind)),
        HeaderField::Text(s) => match parse_i32(s.as_str()) {
            Some(v) => Ok(v),
            None => Err(HeaderError::NotInteger(kind)),
        },
    }
}

fn read_required_text(field: &HeaderField, kind: HeaderKind) -> (r: Result<String, HeaderError>)
    ensures
        r matches Ok(s) ==> required_text(*field, kind) == Ok::<Seq<char>, HeaderError>(s@),
        r matches Err(e) ==> required_text(*field, kind) == Err::<Seq<char>, HeaderError>(e),
{
    match field {
        HeaderField::Missing => Err(HeaderError::Missing(kind)),
        HeaderField::Opaque => Err(HeaderError::NotText(kind)),
        HeaderField::Text(s) => Ok(s.clone()),
    }
}

/// The headers of the chat endpoints: the tenant, from `X-Tenant-Id`.
#[derive(Debug)]
pub struct ChatHeaders {
    pub tenant_id: i32,
}

impl ChatHeaders {
    /// Reads the tenant; a missing, non-text or non-integer tenant refuses the request.
    pub fn from_fields(tenant: &HeaderField) -> (r: Result<ChatHeaders, HeaderError>)
        ensures
            r matches Ok(h) ==> required_i32(*tenant, HeaderKind::TenantId) == Ok::<i32, HeaderError>(h.tenant_id),
            r matches Err(e) ==> required_i32(*tenant, HeaderKind::TenantId) == Err::<i32, HeaderError>(e),
    {
        match read_required_i32(tenant, HeaderKind::TenantId) {
            Ok(tenant_id) => Ok(ChatHeaders { tenant_id }),
            Err(e) => Err(e),
        }
    }
}

/// The headers of the warehouse endpoints: the tenant, and whether the caller is a guest.
#[derive(Debug)]
pub struct WmsHeaders {
    pub tenant_id: i32,
    pub is_guess: bool,
}

/// Whether the `x-is-guess` header marks a guest: only the text `true` does.
pub open spec fn guest_flag(field: HeaderField) -> bool {
    match field {
        HeaderField::Text(s) => parse_flag(s@) == Some(true),
        _ => false,
    }
}

impl WmsHeaders {
    /// Reads the guest flag (anything but the text `true` or `false` counts as `false`)
    /// and the tenant, which must be an integer.
    pub fn from_fields(is_guess: &HeaderField, tenant: &HeaderField) -> (r: Result<WmsHeaders, HeaderError>)
        ensures
            r matches Ok(h) ==> required_i32(*tenant, HeaderKind::TenantId) == Ok::<i32, HeaderError>(h.tenant_id)
                && h.is_guess == guest_flag(*is_guess),
            r matches Err(e) ==> required_i32(*tenant, HeaderKind::TenantId) == Err::<i32, HeaderError>(e),
    {
        let guest = match is_guess {
            HeaderField::Text(s) => match parse_bool(s.as_str()) {
                Some(b) => b,
                None => false,
            },
            _ => false,
        };
        match read_required_i32(tenant, HeaderKind::TenantId) {
            Ok(tenant_id) => Ok(WmsHeaders { tenant_id, is_guess: guest }),
            Err(e) => Err(e),
        }
    }
}

/// The headers of the content endpoints: the tenant and the HubSpot signature.
#[derive(Debug)]
pub struct CmsHeaders {
    pub tenant_id: i32,
    pub hubspot_sign: Option<String>,
}

impl CmsHeaders {
    /// Reads the tenant, which must be an integer, and keeps the HubSpot signature when it
    /// is text.
    pub fn from_fields(tenant: &HeaderField, signature: &HeaderField) -> (r: Result<CmsHeaders, HeaderError>)
        ensures
            r matches Ok(h) ==> required_i32(*tenant, HeaderKind::TenantId) == Ok::<i32, HeaderError>(h.tenant_id)
                && (match *signature {
                    HeaderField::Text(s) => h.hubspot_sign == Some(s),
                    _ => h.hubspot_sign is None,
                }),
            r matches Err(e) ==> required_i32(*tenant, HeaderKind::TenantId) == Err::<i32, HeaderError>(e),
    {
        let hubspot_sign = match signature {
            HeaderField::Text(s) => Some(s.clone()),
            _ => None,
        };
        match read_required_i32(tenant, HeaderKind::TenantId) {
            Ok(tenant_id) => Ok(CmsHeaders { tenant_id, hubspot_sign }),
            Err(e) => Err(e),
        }
    }
}

/// The headers of the SEO endpoints.
#[derive(Debug)]
pub struct SeoHeaders {
    pub host: String,
    pub tenant_id: i32,
    pub user_agent: String,
    pub user_type: String,
    pub device_type: String,
}

/// What reading the optional tenant of the SEO endpoints gives: a missing tenant is `0`.
pub open spec fn optional_tenant(field: HeaderField) -> Result<i32, HeaderError> {
    match field {
        HeaderField::Missing => Ok(0),
        _ => required_i32(field, HeaderKind::TenantId),
    }
}

impl SeoHeaders {
    /// Reads, in this order, `User-Agent`, `Host`, `X-User-Type` and `X-Device-Type`,
    /// each of which must be text, then the tenant, which may be missing (then `0`) but
    /// otherwise must be an integer. The first header that fails refuses the request.
    pub fn from_fields(
        user_agent: &HeaderField,
        host: &HeaderField,
        user_type: &HeaderField,
        device_type: &HeaderField,
        tenant: &HeaderField,
    ) -> (r: Result<SeoHeaders, HeaderError>)
        ensures
            r matches Ok(h) ==> {
                &&& required_text(*user_agent, HeaderKind::UserAgent) == Ok::<Seq<char>, HeaderError>(h.user_agent@)
                &&& required_text(*host, HeaderKind::Host) == Ok::<Seq<char>, HeaderError>(h.host@)
                &&& required_text(*user_type, HeaderKind::UserType) == Ok::<Seq<char>, HeaderError>(h.user_type@)
                &&& required_text(*device_type, HeaderKind::DeviceType) == Ok::<Seq<char>, HeaderError>(h.device_type@)
                &&& optional_tenant(*tenant) == Ok::<i32, HeaderError>(h.tenant_id)
            },
            r matches Err(e) ==> {
                ||| required_text(*user_agent, HeaderKind::UserAgent) == Err::<Seq<char>, HeaderError>(e)
                ||| (required_text(*user_agent, HeaderKind::UserAgent) is Ok
                    && required_text(*host, HeaderKind::Host) == Err::<Seq<char>, HeaderError>(e))
                ||| (required_text(*user_agent, HeaderKind::UserAgent) is Ok
                    && required_text(*host, HeaderKind::Host) is Ok
                    && required_text(*user_type, HeaderKind::UserType) == Err::<Seq<char>, HeaderError>(e))
                ||| (required_text(*user_agent, HeaderKind::UserAgent) is Ok
                    && required_text(*host, HeaderKind::Host) is Ok
                    && required_text(*user_type, HeaderKind::UserType) is Ok
                    && required_text(*device_type, HeaderKind::DeviceType) == Err::<Seq<char>, HeaderError>(e))
                ||| (required_text(*user_agent, HeaderKind::UserAgent) is Ok
                    && required_text(*host, HeaderKind::Host) is Ok
                    && required_text(*user_type, HeaderKind::UserType) is Ok
                    && required_text(*device_type, HeaderKind::DeviceType) is Ok
                    && optional_tenant(*tenant) == Err::<i32, HeaderError>(e))
            },
    {
        let user_agent = match read_required_text(user_agent, HeaderKind::UserAgent) {
            Ok(s) => s,
            Err(e) => return Err(e),
        };
        let host = match read_required_text(host, HeaderKind::Host) {
            Ok(s) => s,
            Err(e) => return Err(e),
        };
        let user_type = match read_required_text(user_type, HeaderKind::UserType) {
            Ok(s) => s,
            Err(e) => return Err(e),
        };
        let device_type = match read_required_text(device_type, HeaderKind::DeviceType) {
            Ok(s) => s,
            Err(e) => return Err(e),
        };
        let tenant_id = match tenant {
            HeaderField::Missing => 0,
            _ => match read_required_i32(tenant, HeaderKind::TenantId) {
                Ok(v) => v,
                Err(e) => return Err(e),
            },
        };
        Ok(SeoHeaders { host, tenant_id, user_agent, user_type, device_type })
    }
}

/// Why a typed header could not be read.
#[derive(Clone, Copy, Debug, PartialEq, Eq, Structural)]
pub enum TypedHeaderError {
    Invalid,
}

/// The tenant a request acts for, from the `x-tenant-id` header.
#[derive(Debug, PartialEq, Eq, Structural)]
pub struct XTenantId(pub i64);

/// What decoding an `x-tenant-id` header gives: a present text header reading as an `i64`.
pub open spec fn tenant_of(field: HeaderField) -> Option<i64> {
    match field {
        HeaderField::Text(s) => match parse_integer(s@, true, i64::MIN as int, i64::MAX as int) {
            Some(v) => Some(v as i64),
            None => None,
        },
        _ => None,
    }
}

impl XTenantId {
    /// Decodes the first value of the header: it must be there, be text and read as an
    /// `i64`.
    pub fn decode(first: &HeaderField) -> (r: Result<XTenantId, TypedHeaderError>)
        ensures
            r matches Ok(t) ==> tenant_of(*first) == Some(t.0),
            r is Err ==> tenant_of(*first) is None,
    {
        match first {
            HeaderField::Text(s) => match parse_i64(s.as_str()) {
                Some(v) => Ok(XTenantId(v)),
                None => Err(TypedHeaderError::Invalid),
            },
            _ => Err(TypedHeaderError::Invalid),
        }
    }

    /// The text the header is sent as: the tenant in decimal.
    pub fn encode(&self) -> (r: String)
        ensures
            r@ == int_text(self.0 as int),
    {
        format_i64(self.0)
    }

    /// The tenant, as a number.
    pub fn value(&self) -> (r: i64)
        ensures
            r == self.0,
    {
        self.0
    }
}

/// Encoding a tenant and decoding the text again gives the same tenant.
pub proof fn lemma_tenant_round_trip(t: i64, s: String)
    requires
        s@ == int_text(t as int),
    ensures
        tenant_of(HeaderField::Text(s)) == Some(t),
{
    crate::text::lemma_int_text_round_trip(t as int, i64::MIN as int, i64::MAX as int);
}

/// The user a request acts for, from the `x-user-id` header; empty or missing means none.
#[derive(Clone, Debug, PartialEq, Eq)]
pub struct XUserId(pub Option<String>);

impl XUserId {
    /// Decodes the first value of the header: none when missing or empty text; a value that
    /// is not text is refused.
    pub fn decode(first: &HeaderField) -> (r: Result<XUserId, TypedHeaderError>)
        ensures
            *first == HeaderField::Missing ==> r == Ok::<XUserId, TypedHeaderError>(XUserId(None)),
            *first == HeaderField::Opaque ==> r is Err,
            first matches HeaderField::Text(s) ==> (r matches Ok(u) && (
                if s@.len() == 0 { u.0 is None } else { u.0 == Some(*s) })),
    {
        match first {
            HeaderField::Missing => Ok(XUserId(None)),
            HeaderField::Opaque => Err(TypedHeaderError::Invalid),
            HeaderField::Text(s) => {
                if s.as_str().is_empty() {
                    Ok(XUserId(None))
                } else {
                    Ok(XUserId(Some(s.clone())))
                }
            },
        }
    }

    /// The text the header is sent as, if there is a user.
    pub fn encode(&self) -> (r: Option<String>)
        ensures
            r == self.0,
    {
        self.0.clone()
    }
}

/// The `x-hub-signature-256` header of a webhook call.
#[derive(Debug, PartialEq, Eq)]
pub struct XHubSignature256(pub String);

impl XHubSignature256 {
    /// Decodes the first value of the header, which must be there and be text.
    pub fn decode(first: &HeaderField) -> (r: Result<XHubSignature256, TypedHeaderError>)
        ensures
            r matches Ok(sig) ==> *first == HeaderField::Text(sig.0),
            r is Err ==> !(first is Text),
    {
        match first {
            HeaderField::Text(s) => Ok(XHubSignature256(s.clone())),
            _ => Err(TypedHeaderError::Invalid),
        }
    }

    /// The signature text.
    pub fn encode(&self) -> (r: String)
        ensures
            r == self.0,
    {
        self.0.clone()
    }
}

/// The headers of the investing endpoints: the tenant and the user.
#[derive(Debug)]
pub struct InvestingHeaders {
    pub tenant_id: XTenantId,
    pub user_id: XUserId,
}

impl InvestingHeaders {
    /// Reads both headers; either failing refuses the request.
    pub fn from_fields(tenant: &HeaderField, user: &HeaderField) -> (r: Result<InvestingHeaders, TypedHeaderError>)
        ensures
            r matches Ok(h) ==> tenant_of(*tenant) == Some(h.tenant_id.0)
                && (*user == HeaderField::Missing ==> h.user_id.0 is None)
                && (user matches HeaderField::Text(s) ==> if s@.len() == 0 {
                    h.user_id.0 is None
                } else {
                    h.user_id.0 == Some(*s)
                }),
            r is Err <==> (tenant_of(*tenant) is None || *user == HeaderField::Opaque),
    {
        let tenant_id = match XTenantId::decode(tenant) {
            Ok(t) => t,
            Err(e) => return Err(e),
        };
        let user_id = match XUserId::decode(user) {
            Ok(u) => u,
            Err(e) => return Err(e),
        };
        Ok(InvestingHeaders { tenant_id, user_id })
    }
}

} // verus!
