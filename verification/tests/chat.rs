use vnscope::chat::{
    incoming_messages, signature_accepted, signature_of, slack_action, verify_webhook, Entry,
    Message, Messaging, Sender, SlackAction, SlackEvent, SlackEventWrapper, Verification,
    VerifyRequest, WebhookRequest,
};
use vnscope::headers::HeaderField;

fn some(s: &str) -> Option<String> {
    Some(s.to_string())
}

#[test]
fn webhook_verification() {
    let ok = VerifyRequest { mode: some("subscribe"), token: some("tok"), challenge: some("123") };
    assert_eq!(verify_webhook(&ok, "tok"), Verification::Accepted("123".to_string()));
    let no_challenge = VerifyRequest { mode: some("subscribe"), token: some("tok"), challenge: None };
    assert_eq!(verify_webhook(&no_challenge, "tok"), Verification::MissingChallenge);
    let wrong_token = VerifyRequest { mode: some("subscribe"), token: some("other"), challenge: some("1") };
    assert_eq!(verify_webhook(&wrong_token, "tok"), Verification::Refused);
    let wrong_mode = VerifyRequest { mode: some("unsubscribe"), token: some("tok"), challenge: some("1") };
    assert_eq!(verify_webhook(&wrong_mode, "tok"), Verification::Refused);
    let empty = VerifyRequest { mode: None, token: None, challenge: None };
    assert_eq!(verify_webhook(&empty, "tok"), Verification::Refused);
}

#[test]
fn signatures_use_hmac_sha256_hex() {
    let sig = signature_of(b"Jefe", b"what do ya want for nothing?");
    assert_eq!(
        sig,
        "sha256=5bdcc146bf60754e6a042426089575c75a003f089d2739839dec58b964ec3843"
    );
    let body: &[u8] = b"what do ya want for nothing?";
    assert!(signature_accepted(b"Jefe", body, &HeaderField::Text(sig.clone())));
    assert!(!signature_accepted(b"Jeff", body, &HeaderField::Text(sig)));
    assert!(signature_accepted(b"Jefe", body, &HeaderField::Missing));
    assert!(!signature_accepted(b"Jefe", body, &HeaderField::Opaque));
}

fn messaging(sender: Option<&str>, text: Option<&str>, is_echo: Option<bool>) -> Messaging {
    Messaging {
        recipient: None,
        sender: sender.map(|id| Sender { id: id.to_string() }),
        message: Some(Message { text: text.map(|t| t.to_string()), is_echo }),
    }
}

#[test]
fn incoming_messages_skip_echoes_and_empty_ones() {
    let payload = WebhookRequest {
        object: "page".to_string(),
        entry: vec![
            Entry {
                messaging: vec![
                    messaging(Some("a"), Some("hi"), None),
                    messaging(Some("b"), Some("echo"), Some(true)),
                    messaging(None, Some("lost"), None),
                ],
            },
            Entry {
                messaging: vec![
                    messaging(Some("c"), None, Some(false)),
                    messaging(Some("d"), Some("yo"), Some(false)),
                ],
            },
        ],
    };
    assert_eq!(
        incoming_messages(&payload),
        Some(vec![
            ("a".to_string(), "hi".to_string()),
            ("d".to_string(), "yo".to_string())
        ])
    );
    let other = WebhookRequest { object: "user".to_string(), entry: vec![] };
    assert_eq!(incoming_messages(&other), None);
}

fn event(kind: &str, bot: Option<&str>, thread: Option<&str>) -> SlackEvent {
    SlackEvent {
        event_type: kind.to_string(),
        bot: bot.map(|b| b.to_string()),
        user: some("U1"),
        text: some("reply"),
        channel: some("C1"),
        thread_ts: thread.map(|t| t.to_string()),
    }
}

#[test]
fn slack_events_decide_actions() {
    let challenge = SlackEventWrapper { token: "t".into(), challenge: some("c"), event: Some(event("message", None, Some("1.2"))) };
    assert_eq!(slack_action(&challenge), SlackAction::Challenge("c".to_string()));
    let reply = SlackEventWrapper { token: "t".into(), challenge: None, event: Some(event("message", None, Some("1.2"))) };
    assert_eq!(
        slack_action(&reply),
        SlackAction::Forward { thread_ts: "1.2".to_string(), text: "reply".to_string() }
    );
    let bot = SlackEventWrapper { token: "t".into(), challenge: None, event: Some(event("message", Some("B"), Some("1.2"))) };
    assert_eq!(slack_action(&bot), SlackAction::Ignore);
    let no_thread = SlackEventWrapper { token: "t".into(), challenge: None, event: Some(event("message", None, None)) };
    assert_eq!(slack_action(&no_thread), SlackAction::Ignore);
    let other = SlackEventWrapper { token: "t".into(), challenge: None, event: Some(event("reaction_added", None, Some("1"))) };
    assert_eq!(slack_action(&other), SlackAction::Ignore);
    let empty = SlackEventWrapper { token: "t".into(), challenge: None, event: None };
    assert_eq!(slack_action(&empty), SlackAction::Ignore);
}

#[test]
fn signature_text_is_prefixed_hex() {
    assert_eq!(vnscope::chat::signature_text(&[0xab, 0x01, 0xff]), "sha256=ab01ff");
    assert_eq!(vnscope::chat::signature_text(&[]), "sha256=");
    assert!(vnscope::chat::header_carries("x", &HeaderField::Text("x".into())));
    assert!(!vnscope::chat::header_carries("x", &HeaderField::Opaque));
    assert!(vnscope::chat::header_carries("x", &HeaderField::Missing));
}
