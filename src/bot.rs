//! The chat bot: where its calls go, the bodies it sends, and how its
//! replies read.
use vstd::prelude::*;
use vstd::string::StringExecFns;
use crate::log::{rendered, Info};

verus! {

/// The address that every bot method is reached under, before the token.
pub open spec fn api_base() -> Seq<char> {
    "https://api.telegram.org/bot"@
}

/// A bot, known by its token.
#[derive(Debug)]
pub struct Bot {
    token: String,
}

impl Bot {
    /// The bot's token.
    pub closed spec fn token_view(&self) -> Seq<char> {
        self.token@
    }

    pub fn new(token: String) -> (r: Self)
        ensures
            r.token_view() == token@,
    {
        Bot { token }
    }

    /// The address of a bot method: the API base, the token, then the method.
    pub fn method_url(&self, method: &str) -> (r: String)
        ensures
            r@ == api_base() + self.token_view() + "/"@ + method@,
    {
        let mut url = String::new();
        url.append("https://api.telegram.org/bot");
        url.append(self.token.as_str());
        url.append("/");
        url.append(method);
        url
    }
}

/// A reply of the bot API: a result, or a refusal.
#[derive(Debug)]
pub enum Response<T> {
    Delivered { ok: bool, result: T },
    Rejected { ok: bool },
}

impl<T> Response<T> {
    /// The result of a reply, if it carries one.
    pub fn to_option(self) -> (r: Option<T>)
        ensures
            match self {
                Response::Delivered { result, .. } => r == Some(result),
                Response::Rejected { .. } => r is None,
            },
    {
        match self {
            Response::Delivered { result, .. } => Some(result),
            Response::Rejected { .. } => None,
        }
    }
}

/// A message that the bot posted, known by its id.
#[derive(Debug, Clone, Copy)]
pub struct Message {
    pub message_id: usize,
}

/// The body of a `sendMessage` call.
#[derive(Debug)]
pub struct SendMessage {
    pub chat_id: String,
    pub text: String,
    pub parse_mode: String,
    pub disable_web_page_preview: bool,
}

impl SendMessage {
    /// A message of HTML text to a chat, without link previews.
    pub fn new(chat_id: &str, text: &str) -> (r: Self)
        ensures
            r.chat_id@ == chat_id@,
            r.text@ == text@,
            r.parse_mode@ == "HTML"@,
            r.disable_web_page_preview,
    {
        SendMessage {
            chat_id: chat_id.to_owned(),
            text: text.to_owned(),
            parse_mode: "HTML".to_owned(),
            disable_web_page_preview: true,
        }
    }
}

impl Default for SendMessage {
    fn default() -> (r: Self)
        ensures
            r.chat_id@ == Seq::<char>::empty(),
            r.text@ == Seq::<char>::empty(),
            r.parse_mode@ == "HTML"@,
            !r.disable_web_page_preview,
    {
        SendMessage {
            chat_id: String::new(),
            text: String::new(),
            parse_mode: "HTML".to_owned(),
            disable_web_page_preview: false,
        }
    }
}

/// The body of a `forwardMessage` call.
#[derive(Debug)]
pub struct ForwardMessage {
    pub chat_id: String,
    pub from_chat_id: String,
    pub message_id: usize,
}

impl ForwardMessage {
    /// Forwards message `message_id` of chat `from_chat_id` to chat `chat_id`.
    pub fn new(from_chat_id: &str, chat_id: &str, message_id: usize) -> (r: Self)
        ensures
            r.chat_id@ == chat_id@,
            r.from_chat_id@ == from_chat_id@,
            r.message_id == message_id,
    {
        ForwardMessage {
            chat_id: chat_id.to_owned(),
            from_chat_id: from_chat_id.to_owned(),
            message_id,
        }
    }
}

/// The text posted for a build: a bold title that names it, a blank line,
/// then the report of its category set.
pub open spec fn announcement(build: Seq<char>, info: Map<Seq<char>, Set<Seq<char>>>) -> Seq<char> {
    "<b>Daily Build: "@ + build + "</b>\n\n"@ + rendered(info)
}

/// The text posted for a build and what is new in it.
pub fn notification_text(build: &str, info: &Info) -> (r: String)
    requires
        info.wf(),
    ensures
        r@ == announcement(build@, info@),
{
    let mut post = String::new();
    post.append("<b>Daily Build: ");
    post.append(build);
    post.append("</b>\n\n");
    let report = info.render();
    post.append(report.as_str());
    post
}

} // verus!
