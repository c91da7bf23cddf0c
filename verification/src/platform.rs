//! The chat platforms that tenants connect, their secrets, and the names of the APIs that
//! run a chat flow on each platform.
use crate::text::text_is;
use vstd::prelude::*;

verus! {

/// Slack credentials of a tenant.
#[derive(Clone, Debug, Default)]
pub struct Slack {
    pub token: String,
    pub channel: String,
}

/// Facebook credentials of a tenant.
#[derive(Clone, Debug, Default)]
pub struct Facebook {
    pub webhook_access_token: String,
    pub incomming_secret: String,
    pub outgoing_secret: String,
}

/// The chat credentials of a tenant.
#[derive(Clone, Debug, Default)]
pub struct ChatSecret {
    pub slack: Slack,
    pub fb: Facebook,
}

/// A chat platform.
#[derive(Clone, Copy, Debug, PartialEq, Eq, Structural)]
pub enum PlatformType {
    Unknown,
    Facebook,
    Slack,
}

/// A step of a chat flow.
#[derive(Clone, Copy, Debug, PartialEq, Eq, Structural)]
pub enum ChatAction {
    CreateThread,
    SendMessage,
    ReplyMessage,
}

impl PlatformType {
    /// The platform a stored code stands for; unknown codes are `Unknown`.
    pub open spec fn of_code(value: i32) -> PlatformType {
        if value == 1 {
            PlatformType::Facebook
        } else if value == 2 {
            PlatformType::Slack
        } else {
            PlatformType::Unknown
        }
    }

    /// The code stored for the platform: its place in the declaration.
    pub open spec fn code_of(self) -> i32 {
        match self {
            PlatformType::Unknown => 0,
            PlatformType::Facebook => 1,
            PlatformType::Slack => 2,
        }
    }

    /// The name of the platform.
    pub open spec fn name_of(self) -> Seq<char> {
        match self {
            PlatformType::Unknown => "unknown"@,
            PlatformType::Facebook => "facebook"@,
            PlatformType::Slack => "slack"@,
        }
    }

    /// The platform a name stands for; unknown names are `Unknown`.
    pub open spec fn of_name(s: Seq<char>) -> PlatformType {
        if s == "facebook"@ {
            PlatformType::Facebook
        } else if s == "slack"@ {
            PlatformType::Slack
        } else {
            PlatformType::Unknown
        }
    }

    /// The platform a stored code stands for.
    pub fn from_code(value: i32) -> (r: PlatformType)
        ensures
            r == Self::of_code(value),
    {
        match value {
            1 => PlatformType::Facebook,
            2 => PlatformType::Slack,
            _ => PlatformType::Unknown,
        }
    }

    /// The code stored for the platform.
    pub fn code(&self) -> (r: i32)
        ensures
            r == self.code_of(),
    {
        match self {
            PlatformType::Unknown => 0,
            PlatformType::Facebook => 1,
            PlatformType::Slack => 2,
        }
    }

    /// The platform a name stands for.
    pub fn from_name(value: &str) -> (r: PlatformType)
        ensures
            r == Self::of_name(value@),
    {
        if text_is(value, "facebook") {
            PlatformType::Facebook
        } else if text_is(value, "slack") {
            PlatformType::Slack
        } else {
            PlatformType::Unknown
        }
    }

    /// The name of the platform.
    pub fn name(&self) -> (r: &'static str)
        ensures
            r@ == self.name_of(),
    {
        match self {
            PlatformType::Unknown => "unknown",
            PlatformType::Facebook => "facebook",
            PlatformType::Slack => "slack",
        }
    }

    /// The name of the API that runs `action` on this platform, such as
    /// `create_thread_running_in_facebook`.
    pub fn api_name(&self, action: ChatAction) -> (r: String)
        ensures
            r@ == action.prefix_of() + self.name_of(),
    {
        let mut out = String::new();
        out.append(action.prefix());
        out.append(self.name());
        proof {
            assert(out@ =~= action.prefix_of() + self.name_of());
        }
        out
    }
}

impl ChatAction {
    /// The start of the API names of this step.
    pub open spec fn prefix_of(self) -> Seq<char> {
        match self {
            ChatAction::CreateThread => "create_thread_running_in_"@,
            ChatAction::SendMessage => "send_message_running_in_"@,
            ChatAction::ReplyMessage => "reply_message_running_in_"@,
        }
    }

    /// The start of the API names of this step.
    pub fn prefix(&self) -> (r: &'static str)
        ensures
            r@ == self.prefix_of(),
    {
        match self {
            ChatAction::CreateThread => "create_thread_running_in_",
            ChatAction::SendMessage => "send_message_running_in_",
            ChatAction::ReplyMessage => "reply_message_running_in_",
        }
    }
}

/// The `Authorization` header value that carries `token`.
pub fn bearer(token: &str) -> (r: String)
    ensures
        r@ == "Bearer "@ + token@,
{
    let mut out = String::new();
    out.append("Bearer ");
    out.append(token);
    proof {
        assert(out@ =~= "Bearer "@ + token@);
    }
    out
}

/// A platform read back from its name is the platform that was named.
pub proof fn lemma_platform_name_round_trip(p: PlatformType)
    ensures
        PlatformType::of_name(p.name_of()) == p,
{
    reveal_strlit("facebook");
    reveal_strlit("slack");
    reveal_strlit("unknown");
    assert("facebook"@.len() != "slack"@.len());
    assert("unknown"@.len() != "slack"@.len());
    assert("unknown"@.len() != "facebook"@.len());
}

/// A platform read back from its stored code is the platform that was stored.
pub proof fn lemma_platform_code_round_trip(p: PlatformType)
    ensures
        PlatformType::of_code(p.code_of()) == p,
{
}

} // verus!
