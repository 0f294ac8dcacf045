use local_rag_app::ollama::{
    candidate_paths, detect_ollama, homebrew_path, installed_ollama_path, log_dir_for_home,
    ollama_log_dir, ollama_url, ollama_version, ChatReply, ChatStreamChunk, CommandOutput,
    LineBuffer,
};

fn s(x: &str) -> String {
    x.to_string()
}

#[test]
fn url_of_api_path() {
    assert_eq!(ollama_url("/api/chat"), "http://127.0.0.1:11434/api/chat");
}

#[test]
fn candidates_in_order() {
    assert_eq!(
        candidate_paths(&Some(s("/cfg"))),
        vec![
            s("/opt/homebrew/bin/ollama"),
            s("/usr/local/bin/ollama"),
            s("/Applications/Ollama.app/Contents/Resources/ollama"),
            s("/cfg/bin/ollama"),
        ]
    );
    assert_eq!(candidate_paths(&None).len(), 3);
    assert_eq!(installed_ollama_path("/cfg"), "/cfg/bin/ollama");
}

#[test]
fn detect_prefers_known_locations() {
    let existing = vec![s("/cfg/bin/ollama"), s("/usr/local/bin/ollama")];
    let which = Some(CommandOutput { success: true, stdout: s("/x/ollama\n") });
    assert_eq!(detect_ollama(&Some(s("/cfg")), &existing, &which), Some(s("/usr/local/bin/ollama")));
}

#[test]
fn detect_falls_back_to_which() {
    let which = Some(CommandOutput { success: true, stdout: s("  /x/bin/ollama\n") });
    assert_eq!(detect_ollama(&None, &vec![], &which), Some(s("/x/bin/ollama")));
    let failed = Some(CommandOutput { success: false, stdout: s("/x/bin/ollama") });
    assert_eq!(detect_ollama(&None, &vec![], &failed), None);
    let blank = Some(CommandOutput { success: true, stdout: s(" \n") });
    assert_eq!(detect_ollama(&None, &vec![], &blank), None);
    assert_eq!(detect_ollama(&None, &vec![], &None), None);
}

#[test]
fn version_from_output() {
    assert_eq!(
        ollama_version(&Some(CommandOutput { success: true, stdout: s("ollama version is 0.5.7\n") })),
        Some(s("ollama version is 0.5.7"))
    );
    assert_eq!(ollama_version(&Some(CommandOutput { success: false, stdout: s("x") })), None);
    assert_eq!(ollama_version(&None), None);
}

#[test]
fn homebrew_locations() {
    assert_eq!(homebrew_path(&vec![s("/usr/local/bin/brew")]), Some(s("/usr/local/bin/brew")));
    assert_eq!(
        homebrew_path(&vec![s("/usr/local/bin/brew"), s("/opt/homebrew/bin/brew")]),
        Some(s("/opt/homebrew/bin/brew"))
    );
    assert_eq!(homebrew_path(&vec![]), None);
}

#[test]
fn log_folder() {
    assert_eq!(log_dir_for_home(&Some(s("/Users/me"))), "/Users/me/Library/Logs/local-rag-app");
    assert_eq!(log_dir_for_home(&None), "./Library/Logs/local-rag-app");
    assert!(ollama_log_dir().ends_with("Library/Logs/local-rag-app"));
}

#[test]
fn line_buffer_joins_lines_across_chunks() {
    let mut b = LineBuffer::new();
    assert_eq!(b.feed(b"{\"a\":1}\n{\"b\""), vec![s("{\"a\":1}")]);
    assert_eq!(b.feed(b":2}\n\n  \n{\"c\":3}  \n"), vec![s("{\"b\":2}"), s("{\"c\":3}")]);
    assert!(b.feed(b"").is_empty());
}

#[test]
fn line_buffer_same_lines_whatever_the_chunking() {
    let text = "one\ntwo\r\n  三 \n\n你好\npartial";
    let mut whole = LineBuffer::new();
    let all = whole.feed(text.as_bytes());
    for cut in 0..text.len() {
        let mut b = LineBuffer::new();
        let mut got = b.feed(&text.as_bytes()[..cut]);
        got.extend(b.feed(&text.as_bytes()[cut..]));
        assert_eq!(got, all, "cut at {cut}");
    }
    assert_eq!(all, vec![s("one"), s("two"), s("三"), s("你好")]);
}

fn line(message: Option<&str>, done: bool) -> Option<ChatStreamChunk> {
    Some(ChatStreamChunk { message: message.map(s), done })
}

#[test]
fn chat_reply_assembles_non_empty_tokens() {
    let mut r = ChatReply::new();
    assert_eq!(r.step(line(Some("Hel"), false)), Some(s("Hel")));
    assert_eq!(r.step(line(Some(""), false)), None);
    assert_eq!(r.step(line(None, false)), None);
    assert_eq!(r.step(None), None);
    assert_eq!(r.step(line(Some("lo"), false)), Some(s("lo")));
    assert!(!r.is_finished());
    assert_eq!(r.text(), "Hello");
}

#[test]
fn chat_reply_stops_at_the_first_done_line() {
    let mut r = ChatReply::new();
    assert_eq!(r.step(line(Some("Hi"), false)), Some(s("Hi")));
    assert_eq!(r.step(line(Some("!"), true)), Some(s("!")));
    assert!(r.is_finished());
    assert_eq!(r.step(line(Some("ignored"), false)), None);
    assert_eq!(r.step(line(Some("also"), true)), None);
    assert_eq!(r.text(), "Hi!");
}

#[test]
fn chat_reply_skips_unreadable_lines() {
    let mut r = ChatReply::new();
    assert_eq!(r.step(None), None);
    assert_eq!(r.step(line(Some("ok"), false)), Some(s("ok")));
    assert_eq!(r.step(None), None);
    assert_eq!(r.step(line(None, true)), None);
    assert!(r.is_finished());
    assert_eq!(r.text(), "ok");
}

#[test]
fn line_buffer_decodes_whole_lines() {
    let mut b = LineBuffer::new();
    let bytes = "你好\n世界\n".as_bytes();
    assert_eq!(b.feed(&bytes[..7]), vec![s("你好")]);
    assert_eq!(b.feed(&bytes[7..]), vec![s("世界")]);
}

#[test]
fn line_buffer_keeps_a_character_cut_between_chunks() {
    // The two bytes of `é` arrive in different chunks and still decode as `é`.
    let bytes = "é\n".as_bytes();
    let mut b = LineBuffer::new();
    assert!(b.feed(&bytes[..1]).is_empty());
    assert_eq!(b.feed(&bytes[1..]), vec![s("é")]);
}

#[test]
fn line_buffer_replaces_invalid_bytes() {
    let mut b = LineBuffer::new();
    assert_eq!(b.feed(&[0x61, 0xFF, 0x62, 0x0A]), vec![s("a\u{FFFD}b")]);
}
