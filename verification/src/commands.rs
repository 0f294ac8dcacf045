//! What the app's commands compute: the retrieval-augmented chat prompt, the
//! records stored for a file's chunks, where a source folder's vectors live,
//! and the results handed back to the user interface.
use vstd::prelude::*;
use crate::models::ModelChoice;
use crate::ollama::ChatMessage;
use crate::scanner::{list_archived_files, list_deleted_files, SourceFolderSnapshot};
use crate::scanner;
use crate::scanner::join_path;
use crate::text;
use crate::text::{append_str, chars_of, contains_string, eq_chars, is_alphanumeric, owned, string_from_chars};

verus! {

/// One turn of the conversation so far, as the user interface sends it.
pub struct ChatTurn {
    /// `user` or `assistant`.
    pub role: String,
    /// The turn's text.
    pub content: String,
}

/// The chat reply and the files it drew on.
pub struct ChatReplyDto {
    /// The model's reply.
    pub reply: String,
    /// Distinct source file names the answer was grounded in, in relevance
    /// order, shown under the reply as citations.
    pub sources: Vec<String>,
}

/// A stored chunk of a document, without its vector.
#[derive(Debug)]
pub struct ChunkEntry {
    /// A unique identifier.
    pub id: String,
    /// The name of the file the chunk comes from.
    pub file_name: String,
    /// The chunk's position in its file.
    pub chunk_index: i32,
    /// The chunk's text.
    pub chunk_text: String,
}

/// The file names of hits, in order.
pub open spec fn hit_names(hits: Seq<ChunkEntry>) -> Seq<Seq<char>> {
    hits.map_values(|h: ChunkEntry| h.file_name@)
}

/// The names in order of first occurrence, each once.
pub open spec fn distinct_in_order(names: Seq<Seq<char>>) -> Seq<Seq<char>>
    decreases names.len(),
{
    if names.len() == 0 {
        Seq::empty()
    } else {
        let rest = distinct_in_order(names.drop_last());
        if rest.contains(names.last()) {
            rest
        } else {
            rest.push(names.last())
        }
    }
}

/// The distinct file names of the hits, in the order they first occur.
pub fn distinct_sources(hits: &Vec<ChunkEntry>) -> (r: Vec<String>)
    ensures
        text::strings(r@) == distinct_in_order(hit_names(hits@)),
{
    let ghost names = hit_names(hits@);
    let mut r: Vec<String> = Vec::new();
    let mut i: usize = 0;
    proof {
        assert(names.take(0) =~= Seq::<Seq<char>>::empty());
        assert(text::strings(r@) =~= Seq::<Seq<char>>::empty());
    }
    while i < hits.len()
        invariant
            i <= hits.len(),
            names == hit_names(hits@),
            text::strings(r@) == distinct_in_order(names.take(i as int)),
        decreases hits.len() - i,
    {
        proof {
            assert(names.take(i + 1).drop_last() =~= names.take(i as int));
            assert(names.take(i + 1).last() == hits@[i as int].file_name@);
        }
        if !contains_string(&r, &hits[i].file_name) {
            let ghost before = text::strings(r@);
            let n = hits[i].file_name.clone();
            let ghost nv = n@;
            r.push(n);
            proof {
                assert(text::strings(r@) =~= before.push(nv));
            }
        }
        i = i + 1;
    }
    proof {
        assert(names.take(hits.len() as int) =~= names);
    }
    r
}

/// The distinct sources hold each name of the hits once, and nothing else.
pub proof fn lemma_distinct_sources(names: Seq<Seq<char>>)
    ensures
        forall|i: int, j: int|
            0 <= i < j < distinct_in_order(names).len() ==> distinct_in_order(names)[i]
                != distinct_in_order(names)[j],
        forall|x: Seq<char>| names.contains(x) <==> distinct_in_order(names).contains(x),
    decreases names.len(),
{
    if names.len() > 0 {
        let prev = names.drop_last();
        lemma_distinct_sources(prev);
        let rest = distinct_in_order(prev);
        let x = names.last();
        assert(names =~= prev.push(x));
        assert forall|y: Seq<char>| names.contains(y) <==> distinct_in_order(names).contains(y) by {
            lemma_push_contains(prev, x, y);
            lemma_push_contains(rest, x, y);
            assert(prev.contains(y) <==> rest.contains(y));
            if rest.contains(x) {
                assert(prev.contains(x));
            }
        }
        if !rest.contains(x) {
            let r = rest.push(x);
            assert forall|i: int, j: int| 0 <= i < j < r.len() implies r[i] != r[j] by {
                if j == rest.len() {
                    assert(r[i] == rest[i]);
                    assert(r[j] == x);
                } else {
                    assert(r[i] == rest[i] && r[j] == rest[j]);
                }
            }
        }
    }
}

/// What a sequence with one more element contains.
proof fn lemma_push_contains(s: Seq<Seq<char>>, x: Seq<char>, y: Seq<char>)
    ensures
        s.push(x).contains(y) <==> (s.contains(y) || y == x),
{
    if s.push(x).contains(y) {
        let k = choose|k: int| 0 <= k < s.push(x).len() && s.push(x)[k] == y;
        if k < s.len() {
            assert(s[k] == y);
        }
    }
    if s.contains(y) {
        let k = choose|k: int| 0 <= k < s.len() && s[k] == y;
        assert(s.push(x)[k] == y);
    }
    if y == x {
        assert(s.push(x)[s.len() as int] == y);
    }
}

/// How one hit is quoted to the model: its file name in a source marker,
/// then its text.
pub open spec fn spec_quote(h: ChunkEntry) -> Seq<char> {
    "【来源: "@ + h.file_name@ + "】\n"@ + h.chunk_text@
}

/// The separator between quoted hits.
pub open spec fn hit_separator() -> Seq<char> {
    "\n\n---\n\n"@
}

/// The parts joined with `sep` between consecutive ones.
pub open spec fn join_with(parts: Seq<Seq<char>>, sep: Seq<char>) -> Seq<char>
    decreases parts.len(),
{
    if parts.len() == 0 {
        Seq::empty()
    } else if parts.len() == 1 {
        parts[0]
    } else {
        join_with(parts.drop_last(), sep) + sep + parts.last()
    }
}

/// The reference material given to the model: the quoted hits joined by
/// separators, or a note that the knowledge base holds nothing relevant.
pub open spec fn spec_context(hits: Seq<ChunkEntry>) -> Seq<char> {
    if hits.len() == 0 {
        "（知识库中暂无相关内容）"@
    } else {
        join_with(hits.map_values(|h: ChunkEntry| spec_quote(h)), hit_separator())
    }
}

/// Every hit is quoted, in order: with no hits the context says the knowledge
/// base holds nothing relevant; one hit gives `【来源: <file>】`, a line feed
/// and its text; each further hit adds `\n\n---\n\n` and its quote after
/// those of the hits before it.
pub proof fn lemma_context_quotes_every_hit(hits: Seq<ChunkEntry>)
    ensures
        hits.len() == 0 ==> spec_context(hits) == "（知识库中暂无相关内容）"@,
        hits.len() == 1 ==> spec_context(hits) == "【来源: "@ + hits[0].file_name@ + "】\n"@
            + hits[0].chunk_text@,
        hits.len() >= 2 ==> spec_context(hits) == spec_context(hits.drop_last()) + "\n\n---\n\n"@
            + "【来源: "@ + hits.last().file_name@ + "】\n"@ + hits.last().chunk_text@,
{
    let quotes = hits.map_values(|h: ChunkEntry| spec_quote(h));
    if hits.len() >= 2 {
        assert(hits.drop_last().map_values(|h: ChunkEntry| spec_quote(h)) =~= quotes.drop_last());
        assert(quotes.last() == spec_quote(hits.last()));
        let a = spec_context(hits.drop_last());
        let x = "【来源: "@ + hits.last().file_name@ + "】\n"@ + hits.last().chunk_text@;
        assert(a + hit_separator() + spec_quote(hits.last()) =~= a + "\n\n---\n\n"@ + x);
    }
}

/// The note given as reference material when there is no knowledge base yet.
pub open spec fn no_knowledge_base() -> Seq<char> {
    "（知识库尚未建立）"@
}

/// The reference material for the model from the search hits (see [`spec_context`]).
pub fn retrieval_context(hits: &Vec<ChunkEntry>) -> (r: String)
    ensures
        r@ == spec_context(hits@),
{
    if hits.len() == 0 {
        return owned("（知识库中暂无相关内容）");
    }
    let ghost quotes = hits@.map_values(|h: ChunkEntry| spec_quote(h));
    let mut r = owned("【来源: ");
    append_str(&mut r, hits[0].file_name.as_str());
    append_str(&mut r, "】\n");
    append_str(&mut r, hits[0].chunk_text.as_str());
    let mut i: usize = 1;
    proof {
        assert(quotes.take(1) =~= seq![quotes[0]]);
    }
    while i < hits.len()
        invariant
            1 <= i <= hits.len(),
            quotes == hits@.map_values(|h: ChunkEntry| spec_quote(h)),
            r@ == join_with(quotes.take(i as int), hit_separator()),
        decreases hits.len() - i,
    {
        proof {
            assert(quotes.take(i + 1).drop_last() =~= quotes.take(i as int));
            assert(quotes.take(i + 1).last() == spec_quote(hits@[i as int]));
        }
        append_str(&mut r, "\n\n---\n\n");
        append_str(&mut r, "【来源: ");
        append_str(&mut r, hits[i].file_name.as_str());
        append_str(&mut r, "】\n");
        append_str(&mut r, hits[i].chunk_text.as_str());
        i = i + 1;
    }
    proof {
        assert(quotes.take(hits.len() as int) =~= quotes);
    }
    r
}

/// The system prompt before the reference material. The prompt template has
/// a single `{context}` placeholder, at its very end, where the reference
/// material goes.
pub open spec fn system_prompt_head() -> Seq<char> {
    "你是一个本地知识库问答助手。请仅根据下面提供的“参考资料”回答用户问题；如果参考资料中没有足够信息，请如实说明你不知道，不要编造。回答使用与用户提问相同的语言。\n\n参考资料：\n"@
}

/// The system prompt with `context` as its reference material.
pub fn system_prompt(context: &str) -> (r: String)
    ensures
        r@ == system_prompt_head() + context@,
{
    let mut r = owned(
        "你是一个本地知识库问答助手。请仅根据下面提供的“参考资料”回答用户问题；如果参考资料中没有足够信息，请如实说明你不知道，不要编造。回答使用与用户提问相同的语言。\n\n参考资料：\n",
    );
    append_str(&mut r, context);
    r
}

/// A message's role and text.
pub open spec fn message_view(m: ChatMessage) -> (Seq<char>, Seq<char>) {
    (m.role@, m.content@)
}

/// A turn's role and text.
pub open spec fn turn_view(t: ChatTurn) -> (Seq<char>, Seq<char>) {
    (t.role@, t.content@)
}

/// The messages sent to the model: the system prompt, the conversation so
/// far, then the user's new message.
pub open spec fn spec_messages(prompt: Seq<char>, history: Seq<ChatTurn>, message: Seq<char>) -> Seq<
    (Seq<char>, Seq<char>),
> {
    seq![("system"@, prompt)] + history.map_values(|t: ChatTurn| turn_view(t)) + seq![
        ("user"@, message),
    ]
}

/// The messages for the model (see [`spec_messages`]).
pub fn chat_messages(system_prompt: String, history: Vec<ChatTurn>, message: String) -> (r: Vec<
    ChatMessage,
>)
    ensures
        r@.map_values(|m: ChatMessage| message_view(m)) == spec_messages(
            system_prompt@,
            history@,
            message@,
        ),
{
    let ghost target = spec_messages(system_prompt@, history@, message@);
    let ghost hist = history@;
    let mut messages: Vec<ChatMessage> = Vec::new();
    messages.push(ChatMessage { role: owned("system"), content: system_prompt });
    let mut history = history;
    let mut rest: Vec<ChatTurn> = Vec::new();
    // Take the turns out in reverse so each moves into its message in order.
    while history.len() > 0
        invariant
            rest@.len() + history@.len() == hist.len(),
            history@ == hist.take(history@.len() as int),
            forall|k: int| 0 <= k < rest@.len() ==> rest@[k] == hist[hist.len() - 1 - k],
        decreases history.len(),
    {
        let t = history.pop().unwrap();
        proof {
            assert(history@ =~= hist.take(history@.len() as int));
        }
        rest.push(t);
    }
    let mut i: usize = 0;
    let n = rest.len();
    while i < n
        invariant
            n == hist.len(),
            rest@.len() == n - i,
            forall|k: int| 0 <= k < rest@.len() ==> rest@[k] == hist[n - 1 - k],
            messages@.map_values(|m: ChatMessage| message_view(m)) == seq![
                ("system"@, system_prompt@),
            ] + hist.take(i as int).map_values(|t: ChatTurn| turn_view(t)),
        decreases n - i,
    {
        let t = rest.pop().unwrap();
        let ghost before = messages@.map_values(|m: ChatMessage| message_view(m));
        let ghost tv = turn_view(t);
        proof {
            assert(t == hist[i as int]);
        }
        messages.push(ChatMessage { role: t.role, content: t.content });
        i = i + 1;
        proof {
            assert(messages@.map_values(|m: ChatMessage| message_view(m)) =~= before.push(tv));
            assert(hist.take(i as int) =~= hist.take(i - 1).push(hist[i - 1]));
            assert(messages@.map_values(|m: ChatMessage| message_view(m)) =~= seq![
                ("system"@, system_prompt@),
            ] + hist.take(i as int).map_values(|t: ChatTurn| turn_view(t)));
        }
    }
    let ghost before = messages@.map_values(|m: ChatMessage| message_view(m));
    let ghost mv = message@;
    messages.push(ChatMessage { role: owned("user"), content: message });
    proof {
        assert(hist.take(n as int) =~= hist);
        assert(messages@.map_values(|m: ChatMessage| message_view(m)) =~= target);
    }
    messages
}

/// What the chat sends to the model and cites: the messages, and the
/// distinct file names of the hits.
pub struct ChatPrompt {
    /// The messages for the model.
    pub messages: Vec<ChatMessage>,
    /// The files the reference material comes from, for citations.
    pub sources: Vec<String>,
}

/// The reference material: that of the hits when there is a knowledge base to
/// search (`Some`), the note that there is none otherwise.
pub open spec fn spec_prompt_context(hits: Option<Seq<ChunkEntry>>) -> Seq<char> {
    match hits {
        Some(h) => spec_context(h),
        None => no_knowledge_base(),
    }
}

/// The prompt for a chat turn: `hits` are the search results for the user's
/// message, or `None` when there is no knowledge base to search (no
/// embedding model, or no vector database). The system prompt carries the
/// reference material; the sources are the distinct file names of the hits,
/// in relevance order.
pub fn build_chat_prompt(hits: Option<Vec<ChunkEntry>>, history: Vec<ChatTurn>, message: String) -> (r:
    ChatPrompt)
    ensures
        r.messages@.map_values(|m: ChatMessage| message_view(m)) == spec_messages(
            system_prompt_head() + spec_prompt_context(
                match hits {
                    Some(h) => Some(h@),
                    None => None,
                },
            ),
            history@,
            message@,
        ),
        text::strings(r.sources@) == match hits {
            Some(h) => distinct_in_order(hit_names(h@)),
            None => Seq::empty(),
        },
{
    let (context, sources) = match &hits {
        Some(h) => (retrieval_context(h), distinct_sources(h)),
        None => {
            let none: Vec<String> = Vec::new();
            proof {
                assert(text::strings(none@) =~= Seq::<Seq<char>>::empty());
            }
            (owned("（知识库尚未建立）"), none)
        },
    };
    let prompt = system_prompt(context.as_str());
    let messages = chat_messages(prompt, history, message);
    ChatPrompt { messages, sources }
}

/// The text embedded for a chunk: the file name in brackets on its own line,
/// then the chunk, so the vector also carries document-level context.
pub open spec fn spec_embedding_input(file_name: Seq<char>, piece: Seq<char>) -> Seq<char> {
    seq!['['] + file_name + seq![']', '\n'] + piece
}

/// The texts embedded for a file's chunks, in order.
pub fn embedding_inputs(file_name: &str, pieces: &Vec<String>) -> (r: Vec<String>)
    ensures
        r@.len() == pieces@.len(),
        forall|i: int|
            0 <= i < pieces@.len() ==> (#[trigger] r@[i])@ == spec_embedding_input(
                file_name@,
                pieces@[i]@,
            ),
{
    let mut r: Vec<String> = Vec::new();
    let mut i: usize = 0;
    while i < pieces.len()
        invariant
            i <= pieces.len(),
            r@.len() == i,
            forall|k: int|
                0 <= k < i ==> (#[trigger] r@[k])@ == spec_embedding_input(file_name@, pieces@[k]@),
        decreases pieces.len() - i,
    {
        let mut s = owned("[");
        append_str(&mut s, file_name);
        append_str(&mut s, "]\n");
        append_str(&mut s, pieces[i].as_str());
        proof {
            reveal_strlit("[");
            reveal_strlit("]\n");
            assert(s@ =~= spec_embedding_input(file_name@, pieces@[i as int]@));
        }
        r.push(s);
        i = i + 1;
    }
    r
}

/// The lower-case hexadecimal digits.
pub open spec fn hex_digits() -> Seq<char> {
    seq!['0', '1', '2', '3', '4', '5', '6', '7', '8', '9', 'a', 'b', 'c', 'd', 'e', 'f']
}

/// Bytes written as lower-case hexadecimal, two digits each, high nibble first.
pub open spec fn hex_text(bytes: Seq<u8>) -> Seq<char>
    decreases bytes.len(),
{
    if bytes.len() == 0 {
        Seq::empty()
    } else {
        seq![hex_digits()[(bytes[0] / 16) as int], hex_digits()[(bytes[0] % 16) as int]]
            + hex_text(bytes.drop_first())
    }
}

/// The bytes of the version 4 UUID built from 16 random bytes: the high
/// nibble of byte 6 becomes the version, 4; the two high bits of byte 8
/// become the RFC 4122 variant, `10`; all else is kept.
pub open spec fn uuid_v4_bytes(random_bytes: Seq<u8>) -> Seq<u8> {
    random_bytes.update(6, ((random_bytes[6] % 16) + 0x40) as u8).update(
        8,
        ((random_bytes[8] % 64) + 0x80) as u8,
    )
}

/// The hyphenated text of the version 4 UUID built from 16 random bytes: its
/// bytes in hexadecimal, with a `-` after bytes 4, 6, 8 and 10.
pub open spec fn uuid_text(random_bytes: Seq<u8>) -> Seq<char> {
    let b = uuid_v4_bytes(random_bytes);
    hex_text(b.subrange(0, 4)) + seq!['-'] + hex_text(b.subrange(4, 6)) + seq!['-'] + hex_text(
        b.subrange(6, 8),
    ) + seq!['-'] + hex_text(b.subrange(8, 10)) + seq!['-'] + hex_text(b.subrange(10, 16))
}

/// Hexadecimal text has two digits per byte.
proof fn lemma_hex_text_len(bytes: Seq<u8>)
    ensures
        hex_text(bytes).len() == 2 * bytes.len(),
    decreases bytes.len(),
{
    if bytes.len() > 0 {
        lemma_hex_text_len(bytes.drop_first());
    }
}

/// The text of a UUID is 36 characters long.
proof fn lemma_uuid_text_len(random_bytes: Seq<u8>)
    requires
        random_bytes.len() == 16,
    ensures
        uuid_text(random_bytes).len() == 36,
{
    let b = uuid_v4_bytes(random_bytes);
    lemma_hex_text_len(b.subrange(0, 4));
    lemma_hex_text_len(b.subrange(4, 6));
    lemma_hex_text_len(b.subrange(6, 8));
    lemma_hex_text_len(b.subrange(8, 10));
    lemma_hex_text_len(b.subrange(10, 16));
}

/// Trusted: `uuid::Builder::from_random_bytes`, made into a `Uuid` and written
/// with its `Display`, which is the lower-case hyphenated form: the builder
/// sets the version and variant bits (`with_version`, `with_variant`) and
/// keeps the other bytes; the form writes each byte as two hex digits with
/// hyphens after bytes 4, 6, 8 and 10 (`format_hyphenated`).
#[verifier::external_body]
fn id_from_random_bytes(random_bytes: [u8; 16]) -> (r: String)
    ensures
        r@ == uuid_text(random_bytes@),
{
    uuid::Builder::from_random_bytes(random_bytes).into_uuid().to_string()
}

/// The records stored for a file's chunks, in order: each with the UUID
/// built from its own 16 random bytes, the file name, its position (as a
/// 32-bit index) and its text.
pub fn chunk_entries(file_name: &str, pieces: Vec<String>, random_ids: &Vec<[u8; 16]>) -> (r: Vec<
    ChunkEntry,
>)
    requires
        random_ids@.len() == pieces@.len(),
    ensures
        r@.len() == pieces@.len(),
        forall|i: int|
            0 <= i < pieces@.len() ==> {
                &&& (#[trigger] r@[i]).id@ == uuid_text(random_ids@[i]@)
                &&& r@[i].id@.len() == 36
                &&& r@[i].file_name@ == file_name@
                &&& r@[i].chunk_index == i as i32
                &&& r@[i].chunk_text == pieces@[i]
            },
{
    let ghost ps = pieces@;
    let mut pieces = pieces;
    let mut rev: Vec<String> = Vec::new();
    while pieces.len() > 0
        invariant
            rev@.len() + pieces@.len() == ps.len(),
            pieces@ == ps.take(pieces@.len() as int),
            forall|k: int| 0 <= k < rev@.len() ==> rev@[k] == ps[ps.len() - 1 - k],
        decreases pieces.len(),
    {
        let p = pieces.pop().unwrap();
        proof {
            assert(pieces@ =~= ps.take(pieces@.len() as int));
        }
        rev.push(p);
    }
    let n = rev.len();
    let mut r: Vec<ChunkEntry> = Vec::new();
    let mut i: usize = 0;
    while i < n
        invariant
            n == ps.len(),
            random_ids@.len() == n,
            rev@.len() == n - i,
            forall|k: int| 0 <= k < rev@.len() ==> rev@[k] == ps[n - 1 - k],
            r@.len() == i,
            forall|k: int|
                0 <= k < i ==> {
                    &&& (#[trigger] r@[k]).id@ == uuid_text(random_ids@[k]@)
                    &&& r@[k].id@.len() == 36
                    &&& r@[k].file_name@ == file_name@
                    &&& r@[k].chunk_index == k as i32
                    &&& r@[k].chunk_text == ps[k]
                },
        decreases n - i,
    {
        let text = rev.pop().unwrap();
        proof {
            assert(text == ps[i as int]);
        }
        let id = id_from_random_bytes(random_ids[i]);
        proof {
            lemma_uuid_text_len(random_ids@[i as int]@);
        }
        r.push(ChunkEntry { id, file_name: owned(file_name), chunk_index: i as i32, chunk_text: text });
        i = i + 1;
    }
    r
}

/// The name under which a source folder's vectors are kept: its path with
/// every character that is not alphanumeric replaced by `_`.
pub open spec fn spec_slug(source: Seq<char>) -> Seq<char> {
    source.map_values(|c: char| if text::char_is_alphanumeric(c) { c } else { '_' })
}

/// The folder of a source folder's vector database: `vectordb/<slug>` under
/// the app's configuration folder.
pub open spec fn spec_vector_db_dir(config_dir: Seq<char>, source: Seq<char>) -> Seq<char> {
    scanner::spec_join(scanner::spec_join(config_dir, "vectordb"@), spec_slug(source))
}

/// The slug of a source folder's path (see [`spec_slug`]).
pub fn source_slug(source: &str) -> (r: String)
    ensures
        r@ == spec_slug(source@),
{
    let cs = chars_of(source);
    let mut out: Vec<char> = Vec::new();
    let mut i: usize = 0;
    while i < cs.len()
        invariant
            i <= cs.len(),
            out@ == cs@.take(i as int).map_values(
                |c: char| if text::char_is_alphanumeric(c) { c } else { '_' },
            ),
        decreases cs.len() - i,
    {
        let c = cs[i];
        let k = if is_alphanumeric(c) { c } else { '_' };
        out.push(k);
        i = i + 1;
        proof {
            assert(out@ =~= cs@.take(i as int).map_values(
                |c: char| if text::char_is_alphanumeric(c) { c } else { '_' },
            ));
        }
    }
    proof {
        assert(cs@.take(cs.len() as int) =~= cs@);
    }
    string_from_chars(&out)
}

/// The folder of the vector database for `source` (see [`spec_vector_db_dir`]).
pub fn vector_db_dir(config_dir: &str, source: &str) -> (r: String)
    ensures
        r@ == spec_vector_db_dir(config_dir@, source@),
{
    let base = join_path(config_dir, "vectordb");
    let slug = source_slug(source);
    join_path(base.as_str(), slug.as_str())
}

/// Whether Ollama is installed and running, where, and which version.
pub struct OllamaStatusDto {
    /// Whether an Ollama binary was found.
    pub installed: bool,
    /// Whether the Ollama API answers.
    pub running: bool,
    /// Where the binary is.
    pub path: Option<String>,
    /// What `ollama --version` reported.
    pub version: Option<String>,
}

/// The status for a detected (or not) binary: installed exactly when a path
/// was found.
pub fn ollama_status(path: Option<String>, running: bool, version: Option<String>) -> (r: OllamaStatusDto)
    ensures
        r.installed == path is Some,
        r.running == running,
        r.path == path,
        r.version == version,
{
    let installed = path.is_some();
    OllamaStatusDto { installed, running, path, version }
}

/// Whether the models are installed, which ones, and the recommendation for
/// this machine.
pub struct ModelsStatusDto {
    /// Whether the models were pulled.
    pub installed: bool,
    /// Tag of the installed embedding model.
    pub embedding_model: Option<String>,
    /// Tag of the installed chat model.
    pub chat_model: Option<String>,
    /// The models recommended for this machine.
    pub recommendation: ModelChoice,
}

/// Numbers of a finished indexing run.
pub struct IndexSummary {
    /// Files ingested.
    pub ingested_files: usize,
    /// Chunks stored.
    pub chunks_added: usize,
}

/// A listed document.
pub struct DocumentEntry {
    /// The file's name.
    pub file_name: String,
    /// The file's size in bytes.
    pub size_bytes: u64,
}

/// The two document columns: indexed and deleted.
pub struct DocumentListsDto {
    /// Files in `archive/`, newest first.
    pub indexed: Vec<DocumentEntry>,
    /// Files in `delete/`, newest first.
    pub deleted: Vec<DocumentEntry>,
}

/// Progress of a delete or restore run.
pub struct DocumentActionProgressEvent {
    /// `deleting` or `restoring`.
    pub action: String,
    /// The file being worked on.
    pub file_name: String,
    /// Steps done, counting this one.
    pub current: usize,
    /// Steps in the run.
    pub total: usize,
}

/// A document entry's name and size.
pub open spec fn entry_view(e: DocumentEntry) -> (Seq<char>, u64) {
    (e.file_name@, e.size_bytes)
}

/// Document entries from a listing, in order.
fn document_entries(listing: Vec<(String, u64)>) -> (r: Vec<DocumentEntry>)
    ensures
        r@.map_values(|e: DocumentEntry| entry_view(e)) == scanner::listing_view(listing@),
{
    let ghost target = scanner::listing_view(listing@);
    let mut r: Vec<DocumentEntry> = Vec::new();
    let mut i: usize = 0;
    while i < listing.len()
        invariant
            i <= listing.len(),
            target == scanner::listing_view(listing@),
            r@.map_values(|e: DocumentEntry| entry_view(e)) == target.take(i as int),
        decreases listing.len() - i,
    {
        let ghost before = r@.map_values(|e: DocumentEntry| entry_view(e));
        let e = DocumentEntry { file_name: listing[i].0.clone(), size_bytes: listing[i].1 };
        let ghost ev = entry_view(e);
        r.push(e);
        proof {
            assert(target.take(i + 1) =~= target.take(i as int).push(target[i as int]));
            assert(r@.map_values(|e: DocumentEntry| entry_view(e)) =~= before.push(ev));
        }
        i = i + 1;
    }
    proof {
        assert(target.take(listing.len() as int) =~= target);
    }
    r
}

/// The document columns of a source folder, or two empty columns when no
/// source folder is chosen.
pub fn document_lists(snapshot: &Option<SourceFolderSnapshot>) -> (r: DocumentListsDto)
    ensures
        match snapshot {
            Some(s) => {
                &&& r.indexed@.map_values(|e: DocumentEntry| entry_view(e))
                    == scanner::spec_listing_of(s.archive)
                &&& r.deleted@.map_values(|e: DocumentEntry| entry_view(e))
                    == scanner::spec_listing_of(s.deleted)
            },
            None => r.indexed@.len() == 0 && r.deleted@.len() == 0,
        },
{
    match snapshot {
        Some(s) => {
            let indexed = document_entries(list_archived_files(s));
            let deleted = document_entries(list_deleted_files(s));
            DocumentListsDto { indexed, deleted }
        },
        None => DocumentListsDto { indexed: Vec::new(), deleted: Vec::new() },
    }
}

/// What a document action run is doing.
#[derive(Debug, Clone, Copy, PartialEq, Eq, Structural)]
pub enum DocumentAction {
    /// Removing files from the index.
    Deleting,
    /// Putting files back into the index.
    Restoring,
}

/// The name of an action as the user interface knows it.
pub open spec fn action_name(a: DocumentAction) -> Seq<char> {
    match a {
        DocumentAction::Deleting => "deleting"@,
        DocumentAction::Restoring => "restoring"@,
    }
}

/// The progress event of a delete or restore run: `current` of `total`
/// steps done, working on `file_name`.
pub fn document_action_progress(
    action: DocumentAction,
    file_name: &String,
    current: usize,
    total: usize,
) -> (r: DocumentActionProgressEvent)
    ensures
        r.action@ == action_name(action),
        r.file_name@ == file_name@,
        r.current == current,
        r.total == total,
{
    let name = match action {
        DocumentAction::Deleting => owned("deleting"),
        DocumentAction::Restoring => owned("restoring"),
    };
    DocumentActionProgressEvent { action: name, file_name: file_name.clone(), current, total }
}

/// The names of `requested` that are among `present`, in the order requested:
/// the files a delete or restore run can act on.
pub open spec fn spec_present_names(requested: Seq<Seq<char>>, present: Seq<Seq<char>>) -> Seq<Seq<char>>
    decreases requested.len(),
{
    if requested.len() == 0 {
        Seq::empty()
    } else {
        let rest = spec_present_names(requested.drop_last(), present);
        if present.contains(requested.last()) {
            rest.push(requested.last())
        } else {
            rest
        }
    }
}

/// The names of `requested` that are among `present`, in the order requested.
pub fn present_names(requested: &Vec<String>, present: &Vec<String>) -> (r: Vec<String>)
    ensures
        text::strings(r@) == spec_present_names(text::strings(requested@), text::strings(present@)),
{
    let ghost req = text::strings(requested@);
    let mut r: Vec<String> = Vec::new();
    let mut i: usize = 0;
    proof {
        assert(req.take(0) =~= Seq::<Seq<char>>::empty());
        assert(text::strings(r@) =~= Seq::<Seq<char>>::empty());
    }
    while i < requested.len()
        invariant
            i <= requested.len(),
            req == text::strings(requested@),
            text::strings(r@) == spec_present_names(req.take(i as int), text::strings(present@)),
        decreases requested.len() - i,
    {
        proof {
            assert(req.take(i + 1).drop_last() =~= req.take(i as int));
            assert(req.take(i + 1).last() == requested@[i as int]@);
        }
        if contains_string(present, &requested[i]) {
            let ghost before = text::strings(r@);
            let n = requested[i].clone();
            let ghost nv = n@;
            r.push(n);
            proof {
                assert(text::strings(r@) =~= before.push(nv));
            }
        }
        i = i + 1;
    }
    proof {
        assert(req.take(requested.len() as int) =~= req);
    }
    r
}

/// Counts the chunks of a run as they are embedded, for progress reporting.
pub struct ChunkProgress {
    completed: usize,
    total: usize,
}

impl ChunkProgress {
    /// The number of chunks embedded so far.
    pub closed spec fn completed(&self) -> nat {
        self.completed as nat
    }

    /// The number of chunks in the run.
    pub closed spec fn total(&self) -> nat {
        self.total as nat
    }

    /// A run of `total` chunks, none embedded yet.
    pub fn new(total: usize) -> (r: ChunkProgress)
        ensures
            r.completed() == 0,
            r.total() == total,
    {
        ChunkProgress { completed: 0, total }
    }

    /// Counts one more embedded chunk and returns how many are done.
    pub fn chunk_done(&mut self) -> (current: usize)
        requires
            old(self).completed() < usize::MAX,
        ensures
            final(self).completed() == old(self).completed() + 1,
            final(self).total() == old(self).total(),
            current == final(self).completed(),
    {
        self.completed = self.completed + 1;
        self.completed
    }

    /// The number of chunks embedded so far.
    pub fn completed_chunks(&self) -> (r: usize)
        ensures
            r == self.completed(),
    {
        self.completed
    }

    /// The number of chunks in the run.
    pub fn total_chunks(&self) -> (r: usize)
        ensures
            r == self.total(),
    {
        self.total
    }
}

/// The app event that a menu item opens, if any: `menu-about` opens the
/// about dialog, `menu-update` the update check.
pub open spec fn spec_menu_event(id: Seq<char>) -> Option<Seq<char>> {
    if id == "menu-about"@ {
        Some("open-about"@)
    } else if id == "menu-update"@ {
        Some("open-update-check"@)
    } else {
        None
    }
}

/// Whether `a` and `b` hold the same characters.
fn same_text(a: &str, b: &str) -> (r: bool)
    ensures
        r == (a@ == b@),
{
    eq_chars(&chars_of(a), &chars_of(b))
}

/// The app event that a menu item opens (see [`spec_menu_event`]).
pub fn menu_event(id: &str) -> (r: Option<String>)
    ensures
        match r {
            Some(e) => spec_menu_event(id@) == Some(e@),
            None => spec_menu_event(id@) is None,
        },
{
    if same_text(id, "menu-about") {
        Some(owned("open-about"))
    } else if same_text(id, "menu-update") {
        Some(owned("open-update-check"))
    } else {
        None
    }
}

} // verus!
