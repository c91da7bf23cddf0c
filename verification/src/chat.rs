//! The chat bridge between Facebook pages and Slack threads: webhook verification,
//! signature checks, and which incoming events are forwarded.
use crate::headers::HeaderField;
use crate::text::text_is;
use hmac::Mac;
use vstd::prelude::*;

verus! {

/// The Slack side of the bridge.
pub struct Slack {
    pub token: String,
    pub channel: String,
}

/// The Facebook side of the bridge.
pub struct Facebook {
    pub webhook_access_token: String,
    pub page_access_token: String,
    pub incomming_secret: String,
    pub outgoing_secret: String,
}

/// Both sides of the bridge.
pub struct Chat {
    pub slack: Slack,
    pub fb: Facebook,
}

/// A thread that links a Facebook sender to a Slack thread.
pub struct Thread {
    pub thread_id: String,
    pub source_id: String,
    pub source_type: i32,
}

/// The query of Facebook's webhook verification call.
pub struct VerifyRequest {
    pub mode: Option<String>,
    pub token: Option<String>,
    pub challenge: Option<String>,
}

/// How a webhook verification call is answered.
#[derive(Debug, PartialEq, Eq)]
pub enum Verification {
    /// Accepted: answer with the challenge.
    Accepted(String),
    /// The mode and token match but there is no challenge to answer with.
    MissingChallenge,
    /// The mode is not `subscribe` or the token is not ours.
    Refused,
}

/// Whether a verification call subscribes with our token.
pub open spec fn subscribes_with(request: VerifyRequest, token: Seq<char>) -> bool {
    &&& request.mode matches Some(m) && m@ == "subscribe"@
    &&& request.token matches Some(t) && t@ == token
}

/// Answers Facebook's webhook verification call: a `subscribe` call with our token is
/// answered with its challenge.
pub fn verify_webhook(request: &VerifyRequest, token: &str) -> (r: Verification)
    ensures
        subscribes_with(*request, token@) ==> (match request.challenge {
            Some(c) => r == Verification::Accepted(c),
            None => r == Verification::MissingChallenge,
        }),
        !subscribes_with(*request, token@) ==> r == Verification::Refused,
{
    let mode_ok = match &request.mode {
        Some(m) => text_is(m.as_str(), "subscribe"),
        None => false,
    };
    let token_ok = match &request.token {
        Some(t) => text_is(t.as_str(), token),
        None => false,
    };
    if mode_ok && token_ok {
        match &request.challenge {
            Some(c) => Verification::Accepted(c.clone()),
            None => Verification::MissingChallenge,
        }
    } else {
        Verification::Refused
    }
}

/// The HMAC-SHA256 tag of `message` under `key`.
pub uninterp spec fn hmac_sha256_tag(key: Seq<u8>, message: Seq<u8>) -> Seq<u8>;

/// Calls `hmac::Hmac::<sha2::Sha256>::new_from_slice`, `Mac::update` and
/// `Mac::finalize(..).into_bytes()`: the HMAC-SHA256 tag of `message` under `key`, which is
/// a function of the two byte strings alone. HMAC takes keys of any length, so creating
/// the MAC does not fail.
#[verifier::external_body]
fn hmac_sha256(key: &[u8], message: &[u8]) -> (tag: Vec<u8>)
    ensures
        tag@ == hmac_sha256_tag(key@, message@),
{
    let mut mac = hmac::Hmac::<sha2::Sha256>::new_from_slice(key).expect("HMAC takes keys of any length");
    mac.update(message);
    mac.finalize().into_bytes().to_vec()
}

/// The lowercase hexadecimal digit of `d` (for `0 <= d < 16`).
pub open spec fn hex_digit(d: int) -> char {
    if d < 10 {
        (d + '0' as int) as char
    } else {
        (d - 10 + 'a' as int) as char
    }
}

/// The lowercase hexadecimal text of `bytes`: two digits per byte, high half first.
pub open spec fn hex_text(bytes: Seq<u8>) -> Seq<char> {
    Seq::new(2 * bytes.len(), |i: int| if i % 2 == 0 {
        hex_digit(bytes[i / 2] as int / 16)
    } else {
        hex_digit(bytes[i / 2] as int % 16)
    })
}

/// Calls `hex::encode`, which writes each byte as two lowercase hexadecimal digits, the
/// high half first.
#[verifier::external_body]
fn hex_encode(bytes: &[u8]) -> (text: String)
    ensures
        text@ == hex_text(bytes@),
{
    hex::encode(bytes)
}

/// The signature Facebook sends for `body` signed with `secret`.
pub open spec fn expected_signature(secret: Seq<u8>, body: Seq<u8>) -> Seq<char> {
    "sha256="@ + hex_text(hmac_sha256_tag(secret, body))
}

/// The signature text of an HMAC tag: `sha256=` and the tag in lowercase hexadecimal.
pub fn signature_text(tag: &[u8]) -> (r: String)
    ensures
        r@ == "sha256="@ + hex_text(tag@),
{
    let mut text = String::new();
    text.append("sha256=");
    let hex = hex_encode(tag);
    text.append(hex.as_str());
    proof {
        assert(text@ =~= "sha256="@ + hex_text(tag@));
    }
    text
}

/// The signature Facebook sends for `body` signed with `secret`: `sha256=` and the
/// hexadecimal HMAC-SHA256 tag.
pub fn signature_of(secret: &[u8], body: &[u8]) -> (r: String)
    ensures
        r@ == expected_signature(secret@, body@),
{
    let tag = hmac_sha256(secret, body);
    signature_text(tag.as_slice())
}

/// Whether a signature header carries `expected`: a call without the header passes
/// unchecked; a header that is not text counts as empty; a text header must be exactly
/// `expected`.
pub fn header_carries(expected: &str, header: &HeaderField) -> (r: bool)
    ensures
        *header == HeaderField::Missing ==> r,
        *header == HeaderField::Opaque ==> r == (expected@ == ""@),
        header matches HeaderField::Text(s) ==> r == (expected@ == s@),
{
    match header {
        HeaderField::Missing => true,
        HeaderField::Opaque => text_is(expected, ""),
        HeaderField::Text(s) => text_is(expected, s.as_str()),
    }
}

/// Checks the `x-hub-signature-256` header of an incoming message: a call without the
/// header passes unchecked; a header that is not text counts as empty and fails; a text
/// header passes only when it is the signature of the body under our secret.
pub fn signature_accepted(secret: &[u8], body: &[u8], header: &HeaderField) -> (r: bool)
    ensures
        *header == HeaderField::Missing ==> r,
        *header == HeaderField::Opaque ==> !r,
        header matches HeaderField::Text(s) ==> r == (expected_signature(secret@, body@) == s@),
{
    if let HeaderField::Missing = header {
        return true;
    }
    let actual = signature_of(secret, body);
    proof {
        reveal_strlit("sha256=");
        reveal_strlit("");
        assert(actual@.len() >= 7);
    }
    header_carries(actual.as_str(), header)
}

/// The sender of a Facebook message.
pub struct Sender {
    pub id: String,
}

/// The page a Facebook message was sent to.
pub struct Recipient {
    pub id: String,
}

/// A Facebook message.
pub struct Message {
    pub text: Option<String>,
    pub is_echo: Option<bool>,
}

/// One messaging event of a webhook entry.
pub struct Messaging {
    pub recipient: Option<Recipient>,
    pub sender: Option<Sender>,
    pub message: Option<Message>,
}

/// One entry of a webhook call.
pub struct Entry {
    pub messaging: Vec<Messaging>,
}

/// The body of a Facebook webhook call.
pub struct WebhookRequest {
    pub object: String,
    pub entry: Vec<Entry>,
}

/// The message that one messaging event forwards, if any: one with a sender and a text
/// that is not an echo of our own message.
pub open spec fn forwarded(m: Messaging) -> Option<(Seq<char>, Seq<char>)> {
    match (m.sender, m.message) {
        (Some(sender), Some(message)) => {
            if message.is_echo == Some(true) {
                None
            } else {
                match message.text {
                    Some(text) => Some((sender.id@, text@)),
                    None => None,
                }
            }
        },
        _ => None,
    }
}

/// The messages that a list of messaging events forwards, in order.
pub open spec fn forwarded_all(ms: Seq<Messaging>) -> Seq<(Seq<char>, Seq<char>)>
    decreases ms.len(),
{
    if ms.len() == 0 {
        Seq::empty()
    } else {
        forwarded_all(ms.drop_last()) + match forwarded(ms.last()) {
            Some(f) => seq![f],
            None => Seq::empty(),
        }
    }
}

/// The messages that a list of entries forwards, entry by entry.
pub open spec fn forwarded_entries(es: Seq<Entry>) -> Seq<(Seq<char>, Seq<char>)>
    decreases es.len(),
{
    if es.len() == 0 {
        Seq::empty()
    } else {
        forwarded_entries(es.drop_last()) + forwarded_all(es.last().messaging@)
    }
}

/// The views of a list of (sender, text) pairs.
pub open spec fn pair_views(v: Seq<(String, String)>) -> Seq<(Seq<char>, Seq<char>)> {
    v.map_values(|p: (String, String)| (p.0@, p.1@))
}

fn forward_messaging(m: &Messaging, out: &mut Vec<(String, String)>)
    ensures
        pair_views(final(out)@) == pair_views(old(out)@) + match forwarded(*m) {
            Some(f) => seq![f],
            None => Seq::empty(),
        },
{
    let ghost before = out@;
    match (&m.sender, &m.message) {
        (Some(sender), Some(message)) => {
            let echo = match message.is_echo {
                Some(b) => b,
                None => false,
            };
            if !echo {
                match &message.text {
                    Some(text) => {
                        out.push((sender.id.clone(), text.clone()));
                        proof {
                            assert(pair_views(out@) =~= pair_views(before) + seq![(sender.id@, text@)]);
                        }
                    },
                    None => {
                        proof {
                            assert(pair_views(out@) =~= pair_views(before) + Seq::empty());
                        }
                    },
                }
            } else {
                proof {
                    assert(pair_views(out@) =~= pair_views(before) + Seq::empty());
                }
            }
        },
        _ => {
            proof {
                assert(pair_views(out@) =~= pair_views(before) + Seq::empty());
            }
        },
    }
}

/// The (sender, text) pairs that an incoming webhook call asks to forward, in order; `None`
/// when the call is not about a page.
pub fn incoming_messages(payload: &WebhookRequest) -> (r: Option<Vec<(String, String)>>)
    ensures
        r is Some <==> payload.object@ == "page"@,
        r matches Some(v) ==> pair_views(v@) == forwarded_entries(payload.entry@),
{
    if !text_is(payload.object.as_str(), "page") {
        return None;
    }
    let mut out: Vec<(String, String)> = Vec::new();
    let mut i: usize = 0;
    while i < payload.entry.len()
        invariant
            0 <= i <= payload.entry@.len(),
            pair_views(out@) == forwarded_entries(payload.entry@.subrange(0, i as int)),
        decreases payload.entry@.len() - i,
    {
        let entry = &payload.entry[i];
        let ghost at_entry = pair_views(out@);
        let mut j: usize = 0;
        while j < entry.messaging.len()
            invariant
                0 <= j <= entry.messaging@.len(),
                pair_views(out@) == at_entry + forwarded_all(entry.messaging@.subrange(0, j as int)),
            decreases entry.messaging@.len() - j,
        {
            forward_messaging(&entry.messaging[j], &mut out);
            proof {
                let ms = entry.messaging@.subrange(0, j + 1);
                assert(ms.drop_last() =~= entry.messaging@.subrange(0, j as int));
                assert(at_entry + forwarded_all(ms) =~= at_entry + forwarded_all(entry.messaging@.subrange(0, j as int))
                    + match forwarded(entry.messaging@[j as int]) {
                        Some(f) => seq![f],
                        None => Seq::empty(),
                    });
            }
            j = j + 1;
        }
        proof {
            assert(entry.messaging@.subrange(0, entry.messaging@.len() as int) =~= entry.messaging@);
            let es = payload.entry@.subrange(0, i + 1);
            assert(es.drop_last() =~= payload.entry@.subrange(0, i as int));
            assert(es.last() == payload.entry@[i as int]);
        }
        i = i + 1;
    }
    proof {
        assert(payload.entry@.subrange(0, payload.entry@.len() as int) =~= payload.entry@);
    }
    Some(out)
}

/// A message to post to a Slack channel.
pub struct SlackMessage {
    pub channel: String,
    pub text: String,
}

/// An event that Slack delivers.
pub struct SlackEvent {
    pub event_type: String,
    pub bot: Option<String>,
    pub user: Option<String>,
    pub text: Option<String>,
    pub channel: Option<String>,
    pub thread_ts: Option<String>,
}

/// The body of a Slack event call.
pub struct SlackEventWrapper {
    pub token: String,
    pub challenge: Option<String>,
    pub event: Option<SlackEvent>,
}

/// What to do with a Slack event call.
#[derive(Debug, PartialEq, Eq)]
pub enum SlackAction {
    /// Answer Slack's URL verification with its challenge.
    Challenge(String),
    /// Send `text`, written in the Slack thread `thread_ts`, back to that thread's sender.
    Forward { thread_ts: String, text: String },
    /// Nothing to do.
    Ignore,
}

/// Whether a Slack event is a person's message in a thread.
pub open spec fn is_thread_reply(e: SlackEvent) -> bool {
    &&& e.event_type@ == "message"@
    &&& e.bot is None
    &&& e.user is Some
    &&& e.text is Some
    &&& e.thread_ts is Some
}

/// Decides what a Slack event call asks for: a challenge is answered first; a person's
/// message in a thread is forwarded; anything else is ignored.
pub fn slack_action(payload: &SlackEventWrapper) -> (r: SlackAction)
    ensures
        payload.challenge matches Some(c) ==> r == SlackAction::Challenge(c),
        payload.challenge is None ==> match payload.event {
            Some(e) => if is_thread_reply(e) {
                r == SlackAction::Forward { thread_ts: e.thread_ts->0, text: e.text->0 }
            } else {
                r == SlackAction::Ignore
            },
            None => r == SlackAction::Ignore,
        },
{
    if let Some(c) = &payload.challenge {
        return SlackAction::Challenge(c.clone());
    }
    match &payload.event {
        Some(event) => {
            if text_is(event.event_type.as_str(), "message") && event.bot.is_none() {
                match (&event.user, &event.text, &event.thread_ts) {
                    (Some(_), Some(text), Some(thread_ts)) => SlackAction::Forward {
                        thread_ts: thread_ts.clone(),
                        text: text.clone(),
                    },
                    _ => SlackAction::Ignore,
                }
            } else {
                SlackAction::Ignore
            }
        },
        None => SlackAction::Ignore,
    }
}

} // verus!
