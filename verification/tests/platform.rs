use vnscope::platform::{bearer, ChatAction, ChatSecret, PlatformType};

#[test]
fn platforms_read_and_write() {
    assert_eq!(PlatformType::from_code(1), PlatformType::Facebook);
    assert_eq!(PlatformType::from_code(2), PlatformType::Slack);
    assert_eq!(PlatformType::from_code(0), PlatformType::Unknown);
    assert_eq!(PlatformType::from_code(7), PlatformType::Unknown);
    assert_eq!(PlatformType::from_name("facebook"), PlatformType::Facebook);
    assert_eq!(PlatformType::from_name("slack"), PlatformType::Slack);
    assert_eq!(PlatformType::from_name("Slack"), PlatformType::Unknown);
    for p in [PlatformType::Unknown, PlatformType::Facebook, PlatformType::Slack] {
        assert_eq!(PlatformType::from_name(p.name()), p);
        assert_eq!(PlatformType::from_code(p.code()), p);
    }
}

#[test]
fn chat_flow_api_names() {
    assert_eq!(
        PlatformType::Facebook.api_name(ChatAction::CreateThread),
        "create_thread_running_in_facebook"
    );
    assert_eq!(
        PlatformType::Slack.api_name(ChatAction::SendMessage),
        "send_message_running_in_slack"
    );
    assert_eq!(
        PlatformType::Unknown.api_name(ChatAction::ReplyMessage),
        "reply_message_running_in_unknown"
    );
    assert_eq!(bearer("abc"), "Bearer abc");
    let secret = ChatSecret::default();
    assert!(secret.slack.token.is_empty());
}
