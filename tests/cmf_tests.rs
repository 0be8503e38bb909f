use cmf::{ChatMessage, Document, Turn, UserMessage};

#[test]
fn test_simple_conversation() {
    let input = r#"> Hello!
Hi there, how can I help?

> What is 2+2?
The answer is 4."#;

    let doc = Document::parse(input);
    assert_eq!(doc.turns.len(), 2);
    assert_eq!(doc.turns[0].user.content, "Hello!");
    assert_eq!(doc.turns[0].assistant, "Hi there, how can I help?");
    assert_eq!(doc.turns[1].user.content, "What is 2+2?");
    assert_eq!(doc.turns[1].assistant, "The answer is 4.");
}

#[test]
fn test_multiline_user() {
    let input = r#"> This is a
> multiline
> user message
Got it!"#;

    let doc = Document::parse(input);
    assert_eq!(doc.turns.len(), 1);
    assert_eq!(doc.turns[0].user.content, "This is a\nmultiline\nuser message");
}

#[test]
fn test_username_attribution() {
    let input = r#"> @alice: Can you help?
Sure!

> @bob: Thanks!
You're welcome."#;

    let doc = Document::parse(input);
    assert_eq!(doc.turns.len(), 2);
    assert_eq!(doc.turns[0].user.username, Some("alice".to_string()));
    assert_eq!(doc.turns[0].user.content, "Can you help?");
    assert_eq!(doc.turns[1].user.username, Some("bob".to_string()));
}

#[test]
fn test_multiline_assistant() {
    let input = r#"> Question?
First paragraph.

Second paragraph.

Third paragraph."#;

    let doc = Document::parse(input);
    assert_eq!(doc.turns.len(), 1);
    assert!(doc.turns[0].assistant.contains("First paragraph."));
    assert!(doc.turns[0].assistant.contains("Second paragraph."));
    assert!(doc.turns[0].assistant.contains("Third paragraph."));
}

#[test]
fn test_is_valid_cmf() {
    assert!(Document::is_valid_cmf("> Hello\nHi!"));
    assert!(!Document::is_valid_cmf("Just plain markdown"));
}

#[test]
fn test_to_cmf_simple() {
    let doc = Document {
        turns: vec![Turn {
            user: UserMessage {
                username: None,
                content: "Hello!".to_string(),
            },
            assistant: "Hi there!".to_string(),
        }],
    };
    assert_eq!(doc.to_cmf(), "> Hello!\nHi there!");
}

#[test]
fn test_to_cmf_multiline_user() {
    let doc = Document {
        turns: vec![Turn {
            user: UserMessage {
                username: None,
                content: "Line one\nLine two".to_string(),
            },
            assistant: "Got it!".to_string(),
        }],
    };
    assert_eq!(doc.to_cmf(), "> Line one\n> Line two\nGot it!");
}

#[test]
fn test_to_cmf_with_username() {
    let doc = Document {
        turns: vec![Turn {
            user: UserMessage {
                username: Some("alice".to_string()),
                content: "Hello".to_string(),
            },
            assistant: "Hi Alice!".to_string(),
        }],
    };
    assert_eq!(doc.to_cmf(), "> @alice: Hello\nHi Alice!");
}

#[test]
fn test_roundtrip() {
    let text = r#"> Hello!
Hi there, how can I help?

> What is 2+2?
The answer is 4."#;

    let doc = Document::parse(text);
    let serialized = doc.to_cmf();
    let reparsed = Document::parse(&serialized);

    assert_eq!(doc.turns.len(), reparsed.turns.len());
    for (orig, re) in doc.turns.iter().zip(reparsed.turns.iter()) {
        assert_eq!(orig.user.content, re.user.content);
        assert_eq!(orig.user.username, re.user.username);
        assert_eq!(orig.assistant, re.assistant);
    }
}

#[test]
fn test_display_impl() {
    let doc = Document {
        turns: vec![Turn {
            user: UserMessage {
                username: None,
                content: "Test".to_string(),
            },
            assistant: "Response".to_string(),
        }],
    };
    assert_eq!(doc.to_cmf(), "> Test\nResponse");
}

#[test]
fn parse_ignores_preamble_and_trims_reply() {
    let doc = Document::parse("title\n\n>no space\n\n\nreply line\n\n");
    assert_eq!(doc.turns.len(), 1);
    assert_eq!(doc.turns[0].user.username, None);
    assert_eq!(doc.turns[0].user.content, "no space");
    assert_eq!(doc.turns[0].assistant, "reply line");
}

#[test]
fn parse_empty_text_has_no_turns() {
    assert_eq!(Document::parse("").turns.len(), 0);
    assert_eq!(Document::parse("plain\ntext").turns.len(), 0);
}

#[test]
fn parse_attribution_with_following_lines() {
    let doc = Document::parse("> @carol:   first\n> second\n");
    assert_eq!(doc.turns[0].user.username, Some("carol".to_string()));
    assert_eq!(doc.turns[0].user.content, "first\nsecond");
    assert_eq!(doc.turns[0].assistant, "");
}

#[test]
fn parse_at_without_colon_is_not_attribution() {
    let doc = Document::parse("> @nobody here\nok");
    assert_eq!(doc.turns[0].user.username, None);
    assert_eq!(doc.turns[0].user.content, "@nobody here");
}

#[test]
fn to_cmf_separates_turns_and_skips_empty_reply() {
    let doc = Document {
        turns: vec![
            Turn {
                user: UserMessage { username: None, content: "a".to_string() },
                assistant: "".to_string(),
            },
            Turn {
                user: UserMessage { username: None, content: "b".to_string() },
                assistant: "c".to_string(),
            },
        ],
    };
    assert_eq!(doc.to_cmf(), "> a\n\n\n> b\nc");
}

#[test]
fn check_reports_user_line_after_text() {
    let issues = Document::check("> hi\nreply\n> again\n\n> fine");
    assert_eq!(issues.len(), 1);
    assert_eq!(issues[0].line, 3);
    assert_eq!(issues[0].message, "User line not preceded by blank line or start of file");
    assert_eq!(Document::check("> a\nb\n\n> c").len(), 0);
}

#[test]
fn chat_export_skips_empty_replies() {
    let doc = Document::parse("> one\n\n> two\nanswer");
    let chat: Vec<ChatMessage> = doc.to_openai_chat();
    assert_eq!(chat.len(), 3);
    assert_eq!(chat[0].role, "user");
    assert_eq!(chat[0].content, "one");
    assert_eq!(chat[1].role, "user");
    assert_eq!(chat[2].role, "assistant");
    assert_eq!(chat[2].content, "answer");
}

#[test]
fn responses_export_types_each_part() {
    let doc = Document::parse("> q\na");
    let msgs = doc.to_openai_responses();
    assert_eq!(msgs.len(), 2);
    assert_eq!(msgs[0].msg_type, "message");
    assert_eq!(msgs[0].role, "user");
    assert_eq!(msgs[0].content[0].part_type, "input_text");
    assert_eq!(msgs[0].content[0].text, "q");
    assert_eq!(msgs[1].role, "assistant");
    assert_eq!(msgs[1].content[0].part_type, "output_text");
    assert_eq!(msgs[1].content[0].text, "a");
}

#[test]
fn parse_accepts_crlf_line_endings() {
    let doc = Document::parse("> x\r\ny\r\n");
    assert_eq!(doc.turns[0].user.content, "x");
    assert_eq!(doc.turns[0].assistant, "y");
}
