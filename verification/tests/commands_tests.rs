use local_rag_app::commands::{
    build_chat_prompt, chat_messages, chunk_entries, distinct_sources, document_action_progress,
    document_lists, embedding_inputs, menu_event, ollama_status, present_names, retrieval_context,
    source_slug, system_prompt, vector_db_dir, ChatTurn, ChunkEntry, ChunkProgress, DocumentAction,
};
use local_rag_app::scanner::{FileEntry, SourceFolderSnapshot};

fn s(x: &str) -> String {
    x.to_string()
}

fn hit(name: &str, text: &str) -> ChunkEntry {
    ChunkEntry { id: s("id"), file_name: s(name), chunk_index: 0, chunk_text: s(text) }
}

const PROMPT_HEAD: &str = "你是一个本地知识库问答助手。请仅根据下面提供的“参考资料”回答用户问题；如果参考资料中没有足够信息，请如实说明你不知道，不要编造。回答使用与用户提问相同的语言。\n\n参考资料：\n";

#[test]
fn sources_are_distinct_in_relevance_order() {
    let hits = vec![hit("b.md", "1"), hit("a.txt", "2"), hit("b.md", "3"), hit("c.txt", "4"), hit("a.txt", "5")];
    assert_eq!(distinct_sources(&hits), vec![s("b.md"), s("a.txt"), s("c.txt")]);
}

#[test]
fn context_quotes_each_hit() {
    let hits = vec![hit("a.txt", "alpha"), hit("b.md", "beta")];
    assert_eq!(retrieval_context(&hits), "【来源: a.txt】\nalpha\n\n---\n\n【来源: b.md】\nbeta");
    assert_eq!(retrieval_context(&vec![]), "（知识库中暂无相关内容）");
}

#[test]
fn system_prompt_ends_with_context() {
    let p = system_prompt("CTX");
    assert_eq!(p, format!("{PROMPT_HEAD}CTX"));
}

#[test]
fn messages_wrap_the_history() {
    let history = vec![
        ChatTurn { role: s("user"), content: s("hi") },
        ChatTurn { role: s("assistant"), content: s("hello") },
    ];
    let m = chat_messages(s("SYS"), history, s("question"));
    let view: Vec<(String, String)> = m.into_iter().map(|m| (m.role, m.content)).collect();
    assert_eq!(
        view,
        vec![
            (s("system"), s("SYS")),
            (s("user"), s("hi")),
            (s("assistant"), s("hello")),
            (s("user"), s("question")),
        ]
    );
}

#[test]
fn prompt_without_knowledge_base() {
    let p = build_chat_prompt(None, vec![], s("q"));
    assert!(p.sources.is_empty());
    assert_eq!(p.messages[0].content, format!("{PROMPT_HEAD}（知识库尚未建立）"));
    assert_eq!(p.messages.len(), 2);
}

#[test]
fn prompt_with_hits() {
    let p = build_chat_prompt(Some(vec![hit("a.txt", "alpha"), hit("a.txt", "again")]), vec![], s("q"));
    assert_eq!(p.sources, vec![s("a.txt")]);
    assert_eq!(
        p.messages[0].content,
        format!("{PROMPT_HEAD}【来源: a.txt】\nalpha\n\n---\n\n【来源: a.txt】\nagain")
    );
    assert_eq!(p.messages[1].role, "user");
    assert_eq!(p.messages[1].content, "q");
}

#[test]
fn embedding_inputs_prefix_the_file_name() {
    let r = embedding_inputs("doc.md", &vec![s("one"), s("two")]);
    assert_eq!(r, vec![s("[doc.md]\none"), s("[doc.md]\ntwo")]);
}

#[test]
fn chunk_entries_number_the_pieces() {
    let ids = vec![[0u8; 16], [0xFFu8; 16], [7u8; 16]];
    let r = chunk_entries("doc.md", vec![s("one"), s("two"), s("three")], &ids);
    assert_eq!(r.len(), 3);
    for (i, e) in r.iter().enumerate() {
        assert_eq!(e.file_name, "doc.md");
        assert_eq!(e.chunk_index, i as i32);
        assert_eq!(e.id.len(), 36);
    }
    assert_eq!(r[2].chunk_text, "three");
    assert_eq!(r[0].id, "00000000-0000-4000-8000-000000000000");
    assert_eq!(r[1].id, "ffffffff-ffff-4fff-bfff-ffffffffffff");
    assert_ne!(r[0].id, r[2].id);
}

#[test]
fn slug_replaces_non_alphanumerics() {
    assert_eq!(source_slug("/Users/张三/My Docs-2"), "_Users_张三_My_Docs_2");
    assert_eq!(vector_db_dir("/cfg", "/a/b"), "/cfg/vectordb/_a_b");
}

#[test]
fn document_columns() {
    let snap = SourceFolderSnapshot {
        root: vec![],
        archive: Some(vec![FileEntry { name: s("a.txt"), is_file: true, size_bytes: 7, modified_nanos: 1 }]),
        deleted: None,
    };
    let d = document_lists(&Some(snap));
    assert_eq!(d.indexed.len(), 1);
    assert_eq!(d.indexed[0].file_name, "a.txt");
    assert_eq!(d.indexed[0].size_bytes, 7);
    assert!(d.deleted.is_empty());
    let none = document_lists(&None);
    assert!(none.indexed.is_empty() && none.deleted.is_empty());
}

#[test]
fn present_names_keep_request_order() {
    let r = present_names(&vec![s("c"), s("a"), s("x")], &vec![s("a"), s("b"), s("c")]);
    assert_eq!(r, vec![s("c"), s("a")]);
}

#[test]
fn progress_events() {
    let e = document_action_progress(DocumentAction::Deleting, &s("a.txt"), 1, 3);
    assert_eq!((e.action.as_str(), e.file_name.as_str(), e.current, e.total), ("deleting", "a.txt", 1, 3));
    let e = document_action_progress(DocumentAction::Restoring, &s("b.txt"), 2, 9);
    assert_eq!(e.action, "restoring");
    let mut p = ChunkProgress::new(2);
    assert_eq!(p.chunk_done(), 1);
    assert_eq!(p.chunk_done(), 2);
    assert_eq!(p.total_chunks(), 2);
}

#[test]
fn ollama_status_installed_iff_path() {
    let st = ollama_status(Some(s("/x/ollama")), true, Some(s("0.5")));
    assert!(st.installed && st.running);
    let st = ollama_status(None, false, None);
    assert!(!st.installed);
}

#[test]
fn menu_events() {
    assert_eq!(menu_event("menu-about"), Some(s("open-about")));
    assert_eq!(menu_event("menu-update"), Some(s("open-update-check")));
    assert_eq!(menu_event("quit"), None);
}
