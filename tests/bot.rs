use changelog_bot::bot::{Bot, ForwardMessage, Message, Response, SendMessage};

#[test]
fn method_url_joins_base_token_and_method() {
    let bot = Bot::new("SECRET-REDACTED".to_owned());
    assert_eq!(
        bot.method_url("sendMessage"),
        "https://api.telegram.org/botSECRET-REDACTED/sendMessage"
    );
}

#[test]
fn response_to_option() {
    let ok: Response<Message> = Response::Delivered { ok: true, result: Message { message_id: 5 } };
    assert_eq!(ok.to_option().map(|m| m.message_id), Some(5));
    let err: Response<Message> = Response::Rejected { ok: false };
    assert!(err.to_option().is_none());
}

#[test]
fn message_bodies() {
    let m = SendMessage::new("chat", "hello");
    assert_eq!((m.chat_id.as_str(), m.text.as_str(), m.parse_mode.as_str()), ("chat", "hello", "HTML"));
    assert!(m.disable_web_page_preview);
    let d = SendMessage::default();
    assert_eq!((d.chat_id.as_str(), d.text.as_str(), d.parse_mode.as_str()), ("", "", "HTML"));
    assert!(!d.disable_web_page_preview);
    let f = ForwardMessage::new("from", "to", 9);
    assert_eq!((f.from_chat_id.as_str(), f.chat_id.as_str(), f.message_id), ("from", "to", 9));
}
