//! The local Ollama server: where its binary is found, the server's address,
//! and the newline-delimited JSON stream protocol of its chat and pull
//! endpoints. Running commands and HTTP requests is the caller's part; the
//! decisions on what they return are made here.
use vstd::prelude::*;
use crate::scanner;
use crate::scanner::join_path;
use crate::text;
use crate::text::{append_str, contains_string, chars_of, copy_range, eq_chars, owned, string_from_chars, trim_chars};

verus! {

/// The address of the local Ollama HTTP API.
pub open spec fn ollama_base_url() -> Seq<char> {
    "http://127.0.0.1:11434"@
}

/// The URL of an Ollama API path such as `/api/chat`.
pub fn ollama_url(path: &str) -> (r: String)
    ensures
        r@ == ollama_base_url() + path@,
{
    let mut r = owned("http://127.0.0.1:11434");
    append_str(&mut r, path);
    r
}

/// The output of a command that ran: whether it exited successfully, and its
/// standard output decoded as UTF-8 (lossily).
pub struct CommandOutput {
    /// Whether the command exited successfully.
    pub success: bool,
    /// Its standard output.
    pub stdout: String,
}

/// The places where an `ollama` binary is looked for, in order: Homebrew on
/// Apple Silicon, Homebrew on Intel, the official app bundle, and the copy
/// this app installs into `<config dir>/bin/ollama` (when the app's
/// configuration folder is known).
pub open spec fn spec_candidate_paths(config_dir: Option<Seq<char>>) -> Seq<Seq<char>> {
    let fixed = seq![
        "/opt/homebrew/bin/ollama"@,
        "/usr/local/bin/ollama"@,
        "/Applications/Ollama.app/Contents/Resources/ollama"@,
    ];
    match config_dir {
        Some(d) => fixed.push(spec_installed_ollama_path(d)),
        None => fixed,
    }
}

/// Where this app installs its own copy of `ollama`: `bin/ollama` under the
/// app's configuration folder.
pub open spec fn spec_installed_ollama_path(config_dir: Seq<char>) -> Seq<char> {
    scanner::spec_join(scanner::spec_join(config_dir, "bin"@), "ollama"@)
}

/// Where this app installs its own copy of `ollama` (see
/// [`spec_installed_ollama_path`]).
pub fn installed_ollama_path(config_dir: &str) -> (r: String)
    ensures
        r@ == spec_installed_ollama_path(config_dir@),
{
    let bin = join_path(config_dir, "bin");
    join_path(bin.as_str(), "ollama")
}

/// The optional string's characters.
pub open spec fn opt_view(o: Option<String>) -> Option<Seq<char>> {
    match o {
        Some(s) => Some(s@),
        None => None,
    }
}

/// The places where an `ollama` binary is looked for (see [`spec_candidate_paths`]).
pub fn candidate_paths(config_dir: &Option<String>) -> (r: Vec<String>)
    ensures
        text::strings(r@) == spec_candidate_paths(opt_view(*config_dir)),
{
    let mut paths: Vec<String> = Vec::new();
    paths.push(owned("/opt/homebrew/bin/ollama"));
    paths.push(owned("/usr/local/bin/ollama"));
    paths.push(owned("/Applications/Ollama.app/Contents/Resources/ollama"));
    if let Some(dir) = config_dir {
        paths.push(installed_ollama_path(dir.as_str()));
    }
    proof {
        assert(text::strings(paths@) =~= spec_candidate_paths(opt_view(*config_dir)));
    }
    paths
}

/// The first of `candidates` that is among `existing`, if any.
pub open spec fn spec_first_existing(candidates: Seq<Seq<char>>, existing: Seq<Seq<char>>) -> Option<
    Seq<char>,
>
    decreases candidates.len(),
{
    if candidates.len() == 0 {
        None
    } else if existing.contains(candidates[0]) {
        Some(candidates[0])
    } else {
        spec_first_existing(candidates.drop_first(), existing)
    }
}

/// The first of `candidates` that is among `existing`.
fn first_existing(candidates: &Vec<String>, existing: &Vec<String>) -> (r: Option<String>)
    ensures
        opt_view(r) == spec_first_existing(text::strings(candidates@), text::strings(existing@)),
{
    let ghost cs = text::strings(candidates@);
    let ghost ex = text::strings(existing@);
    let mut i: usize = 0;
    proof {
        assert(cs.skip(0) =~= cs);
    }
    while i < candidates.len()
        invariant
            i <= candidates.len(),
            cs == text::strings(candidates@),
            ex == text::strings(existing@),
            spec_first_existing(cs, ex) == spec_first_existing(cs.skip(i as int), ex),
        decreases candidates.len() - i,
    {
        proof {
            assert(cs.skip(i as int)[0] == candidates@[i as int]@);
            assert(cs.skip(i as int).drop_first() =~= cs.skip(i + 1));
        }
        if contains_string(existing, &candidates[i]) {
            return Some(candidates[i].clone());
        }
        i = i + 1;
    }
    None
}

/// Where the `ollama` binary is: the first known location that exists, else
/// what `which ollama` printed (trimmed), when it succeeded and printed
/// something.
pub open spec fn spec_detect_ollama(
    config_dir: Option<Seq<char>>,
    existing: Seq<Seq<char>>,
    which: Option<(bool, Seq<char>)>,
) -> Option<Seq<char>> {
    match spec_first_existing(spec_candidate_paths(config_dir), existing) {
        Some(p) => Some(p),
        None => match which {
            Some((true, out)) if text::trim(out).len() > 0 => Some(text::trim(out)),
            _ => None,
        },
    }
}

/// The output of a command as a pair of success and standard output.
pub open spec fn output_view(o: Option<CommandOutput>) -> Option<(bool, Seq<char>)> {
    match o {
        Some(c) => Some((c.success, c.stdout@)),
        None => None,
    }
}

/// Locates the `ollama` binary (see [`spec_detect_ollama`]). `existing_files`
/// are the candidate paths found to be files; `which_output` is the result of
/// `which ollama` (`None` if it could not run).
pub fn detect_ollama(
    config_dir: &Option<String>,
    existing_files: &Vec<String>,
    which_output: &Option<CommandOutput>,
) -> (r: Option<String>)
    ensures
        opt_view(r) == spec_detect_ollama(
            opt_view(*config_dir),
            text::strings(existing_files@),
            output_view(*which_output),
        ),
{
    let candidates = candidate_paths(config_dir);
    if let Some(p) = first_existing(&candidates, existing_files) {
        return Some(p);
    }
    match which_output {
        Some(out) => {
            if out.success {
                let t = trim_chars(&chars_of(out.stdout.as_str()));
                if t.len() > 0 {
                    return Some(string_from_chars(&t));
                }
            }
            None
        },
        None => None,
    }
}

/// The version an `ollama --version` run reports: its trimmed output when it
/// ran and succeeded.
pub open spec fn spec_ollama_version(output: Option<(bool, Seq<char>)>) -> Option<Seq<char>> {
    match output {
        Some((true, out)) => Some(text::trim(out)),
        _ => None,
    }
}

/// The version reported by `ollama --version` (see [`spec_ollama_version`]).
pub fn ollama_version(output: &Option<CommandOutput>) -> (r: Option<String>)
    ensures
        opt_view(r) == spec_ollama_version(output_view(*output)),
{
    match output {
        Some(out) => {
            if out.success {
                Some(string_from_chars(&trim_chars(&chars_of(out.stdout.as_str()))))
            } else {
                None
            }
        },
        None => None,
    }
}

/// Where Homebrew is looked for, in order.
pub open spec fn homebrew_candidates() -> Seq<Seq<char>> {
    seq!["/opt/homebrew/bin/brew"@, "/usr/local/bin/brew"@]
}

/// The Homebrew binary: the first of its usual locations that is among
/// `existing_files`.
pub fn homebrew_path(existing_files: &Vec<String>) -> (r: Option<String>)
    ensures
        opt_view(r) == spec_first_existing(homebrew_candidates(), text::strings(existing_files@)),
{
    let mut candidates: Vec<String> = Vec::new();
    candidates.push(owned("/opt/homebrew/bin/brew"));
    candidates.push(owned("/usr/local/bin/brew"));
    proof {
        assert(text::strings(candidates@) =~= homebrew_candidates());
    }
    first_existing(&candidates, existing_files)
}

/// Trusted: `dirs::home_dir`, the path taken as text (lossily). It reads the
/// environment, so nothing is stated of the result.
#[verifier::external_body]
fn home_dir() -> Option<String> {
    dirs::home_dir().map(|p| p.to_string_lossy().to_string())
}

/// The folder for the Ollama server's logs under a home folder
/// (`<home>/Library/Logs/local-rag-app`), the current folder standing in when
/// the home folder is unknown.
pub open spec fn spec_log_dir(home: Option<Seq<char>>) -> Seq<char> {
    let h = match home {
        Some(h) => h,
        None => "."@,
    };
    scanner::spec_join(scanner::spec_join(scanner::spec_join(h, "Library"@), "Logs"@), "local-rag-app"@)
}

/// The log folder for a given home folder (see [`spec_log_dir`]).
pub fn log_dir_for_home(home: &Option<String>) -> (r: String)
    ensures
        r@ == spec_log_dir(opt_view(*home)),
{
    let h = match home {
        Some(h) => h.clone(),
        None => owned("."),
    };
    let lib = join_path(h.as_str(), "Library");
    let logs = join_path(lib.as_str(), "Logs");
    join_path(logs.as_str(), "local-rag-app")
}

/// The folder for the Ollama server's logs, under the user's home folder.
pub fn ollama_log_dir() -> (r: String)
    ensures
        exists|home: Option<Seq<char>>| r@ == #[trigger] spec_log_dir(home),
{
    let home = home_dir();
    log_dir_for_home(&home)
}

/// The byte that ends a line of a newline-delimited stream.
pub const LINE_FEED: u8 = 0x0A;

/// The lossy UTF-8 decoding of bytes, as `String::from_utf8_lossy` computes it.
pub uninterp spec fn utf8_lossy(bytes: Seq<u8>) -> Seq<char>;

/// Trusted: `String::from_utf8_lossy`; the result is the named decoding of
/// `bytes`.
#[verifier::external_body]
fn decode_lossy(bytes: &Vec<u8>) -> (r: String)
    ensures
        r@ == utf8_lossy(bytes@),
{
    String::from_utf8_lossy(bytes).into_owned()
}

/// The index of the first `c` in `s`, or -1.
pub open spec fn index_of<T>(s: Seq<T>, c: T) -> int
    decreases s.len(),
{
    if s.len() == 0 {
        -1
    } else if s[0] == c {
        0
    } else {
        let r = index_of(s.drop_first(), c);
        if r < 0 {
            -1
        } else {
            r + 1
        }
    }
}

/// `index_of` is the first occurrence, or -1 when there is none.
pub proof fn lemma_index_of<T>(s: Seq<T>, c: T)
    ensures
        -1 <= index_of(s, c) < s.len(),
        index_of(s, c) >= 0 ==> s[index_of(s, c)] == c,
        forall|j: int| 0 <= j < s.len() && (index_of(s, c) < 0 || j < index_of(s, c)) ==> s[j] != c,
    decreases s.len(),
{
    if s.len() > 0 && s[0] != c {
        lemma_index_of(s.drop_first(), c);
        assert forall|j: int|
            0 <= j < s.len() && (index_of(s, c) < 0 || j < index_of(s, c)) implies s[j] != c by {
            if j > 0 {
                assert(s[j] == s.drop_first()[j - 1]);
            }
        }
    }
}

/// The position of the first `c` is the one before which there is none.
proof fn lemma_index_of_at<T>(s: Seq<T>, c: T, k: int)
    requires
        0 <= k <= s.len(),
        forall|j: int| 0 <= j < k ==> s[j] != c,
        k < s.len() ==> s[k] == c,
    ensures
        index_of(s, c) == if k < s.len() {
            k
        } else {
            -1
        },
{
    lemma_index_of(s, c);
}

/// The text of one line of a stream: its bytes decoded, trimmed.
pub open spec fn line_text(bytes: Seq<u8>) -> Seq<char> {
    text::trim(utf8_lossy(bytes))
}

/// The complete lines of a stream: the bytes before each line feed, decoded
/// and trimmed, blank ones left out.
pub open spec fn complete_lines(s: Seq<u8>) -> Seq<Seq<char>>
    decreases s.len(),
{
    let p = index_of(s, LINE_FEED);
    if p < 0 {
        Seq::empty()
    } else {
        proof {
            lemma_index_of(s, LINE_FEED);
        }
        let line = line_text(s.subrange(0, p));
        let rest = complete_lines(s.subrange(p + 1, s.len() as int));
        if line.len() > 0 {
            seq![line] + rest
        } else {
            rest
        }
    }
}

/// What stays of a stream after its complete lines: the bytes after the last
/// line feed.
pub open spec fn leftover(s: Seq<u8>) -> Seq<u8>
    decreases s.len(),
{
    let p = index_of(s, LINE_FEED);
    if p < 0 {
        s
    } else {
        proof {
            lemma_index_of(s, LINE_FEED);
        }
        leftover(s.subrange(p + 1, s.len() as int))
    }
}

/// Feeding a stream in two pieces hands out the same lines, and leaves the
/// same bytes buffered, as feeding it at once.
pub proof fn lemma_lines_split(s: Seq<u8>, t: Seq<u8>)
    ensures
        complete_lines(s) + complete_lines(leftover(s) + t) == complete_lines(s + t),
        leftover(leftover(s) + t) == leftover(s + t),
    decreases s.len(),
{
    lemma_index_of(s, LINE_FEED);
    let p = index_of(s, LINE_FEED);
    if p < 0 {
        assert(complete_lines(s) =~= Seq::<Seq<char>>::empty());
        assert(Seq::<Seq<char>>::empty() + complete_lines(s + t) =~= complete_lines(s + t));
    } else {
        let st = s + t;
        assert forall|j: int| 0 <= j < p implies st[j] != LINE_FEED by {
            assert(st[j] == s[j]);
        }
        assert(st[p] == s[p]);
        lemma_index_of_at(st, LINE_FEED, p);
        let s2 = s.subrange(p + 1, s.len() as int);
        assert(st.subrange(p + 1, st.len() as int) =~= s2 + t);
        assert(st.subrange(0, p) =~= s.subrange(0, p));
        lemma_lines_split(s2, t);
        let line = line_text(s.subrange(0, p));
        if line.len() > 0 {
            assert(seq![line] + complete_lines(s2) + complete_lines(leftover(s2) + t) =~= seq![line]
                + (complete_lines(s2) + complete_lines(leftover(s2) + t)));
        }
    }
}

/// The lines handed out, in order, when `chunks` are fed one after another to
/// a buffer that holds `buffered`.
pub open spec fn lines_fed(buffered: Seq<u8>, chunks: Seq<Seq<u8>>) -> Seq<Seq<char>>
    decreases chunks.len(),
{
    if chunks.len() == 0 {
        Seq::empty()
    } else {
        complete_lines(buffered + chunks[0]) + lines_fed(
            leftover(buffered + chunks[0]),
            chunks.drop_first(),
        )
    }
}

/// What stays buffered holds no line feed.
pub proof fn lemma_leftover_has_no_feed(s: Seq<u8>)
    ensures
        index_of(leftover(s), LINE_FEED) < 0,
    decreases s.len(),
{
    lemma_index_of(s, LINE_FEED);
    let p = index_of(s, LINE_FEED);
    if p >= 0 {
        lemma_leftover_has_no_feed(s.subrange(p + 1, s.len() as int));
    }
}

/// However a stream is cut into chunks, the lines handed out, starting from
/// an empty buffer, are the complete lines of all the bytes received, in
/// order.
pub proof fn lemma_lines_fed(chunks: Seq<Seq<u8>>)
    ensures
        lines_fed(Seq::empty(), chunks) == complete_lines(chunks.flatten()),
{
    lemma_index_of(Seq::<u8>::empty(), LINE_FEED);
    lemma_lines_fed_from(Seq::empty(), chunks);
    assert(Seq::<u8>::empty() + chunks.flatten() =~= chunks.flatten());
}

/// The same, from a buffer that holds no line feed.
proof fn lemma_lines_fed_from(buffered: Seq<u8>, chunks: Seq<Seq<u8>>)
    requires
        index_of(buffered, LINE_FEED) < 0,
    ensures
        lines_fed(buffered, chunks) == complete_lines(buffered + chunks.flatten()),
    decreases chunks.len(),
{
    if chunks.len() == 0 {
        assert(chunks.flatten() =~= Seq::<u8>::empty());
        assert(buffered + chunks.flatten() =~= buffered);
        assert(complete_lines(buffered) =~= Seq::<Seq<char>>::empty());
    } else {
        let s = buffered + chunks[0];
        let rest = chunks.drop_first();
        lemma_leftover_has_no_feed(s);
        lemma_lines_fed_from(leftover(s), rest);
        lemma_lines_split(s, rest.flatten());
        assert(chunks.flatten() =~= chunks[0] + rest.flatten());
        assert(s + rest.flatten() =~= buffered + chunks.flatten());
    }
}

/// Every line handed out is trimmed and not blank.
pub proof fn lemma_lines_shape(s: Seq<u8>)
    ensures
        forall|i: int|
            0 <= i < complete_lines(s).len() ==> {
                &&& (#[trigger] complete_lines(s)[i]).len() > 0
                &&& text::trim(complete_lines(s)[i]) == complete_lines(s)[i]
            },
    decreases s.len(),
{
    lemma_index_of(s, LINE_FEED);
    let p = index_of(s, LINE_FEED);
    if p >= 0 {
        let s2 = s.subrange(p + 1, s.len() as int);
        lemma_lines_shape(s2);
        let raw = utf8_lossy(s.subrange(0, p));
        let line = text::trim(raw);
        let ab = text::lemma_trim_is_subrange(raw);
        if line.len() > 0 {
            // The trimmed line starts and ends with non-whitespace, so trimming it again keeps it.
            text::lemma_trim_start_index(line, 0);
            assert(line.subrange(0, line.len() as int) =~= line);
            text::lemma_trim_end_index(line, line.len() as int);
            assert(line[0] == raw[ab.0]);
            assert(line[line.len() - 1] == raw[ab.1 - 1]);
            let r = seq![line] + complete_lines(s2);
            assert(complete_lines(s) == r);
            assert forall|i: int| 0 <= i < r.len() implies {
                &&& (#[trigger] r[i]).len() > 0
                &&& text::trim(r[i]) == r[i]
            } by {
                if i > 0 {
                    assert(r[i] == complete_lines(s2)[i - 1]);
                }
            }
        } else {
            assert(complete_lines(s) == complete_lines(s2));
        }
    }
}

/// The buffer of a newline-delimited stream: bytes come in arbitrary chunks;
/// complete lines come out.
pub struct LineBuffer {
    buffer: Vec<u8>,
}

impl View for LineBuffer {
    type V = Seq<u8>;

    /// The bytes received but not yet part of a complete line.
    closed spec fn view(&self) -> Seq<u8> {
        self.buffer@
    }
}

impl LineBuffer {
    /// An empty buffer.
    pub fn new() -> (r: LineBuffer)
        ensures
            r@ == Seq::<u8>::empty(),
    {
        let r = LineBuffer { buffer: Vec::new() };
        proof {
            assert(r@ =~= Seq::<u8>::empty());
        }
        r
    }

    /// Takes a chunk of the stream: appends its bytes, and hands out the
    /// complete lines now in the buffer, each decoded as UTF-8 (lossily)
    /// and trimmed, blank ones left out; the bytes after the last line feed
    /// stay buffered, so a character cut between chunks is decoded whole.
    pub fn feed(&mut self, chunk: &[u8]) -> (lines: Vec<String>)
        ensures
            text::strings(lines@) == complete_lines(old(self)@ + chunk@),
            final(self)@ == leftover(old(self)@ + chunk@),
    {
        let mut all = copy_range(&self.buffer, 0, self.buffer.len());
        let mut i: usize = 0;
        proof {
            assert(old(self).buffer@.subrange(0, old(self).buffer@.len() as int) =~= old(self)@);
            assert(chunk@.subrange(0, 0) =~= Seq::<u8>::empty());
            assert(all@ =~= old(self)@ + chunk@.subrange(0, 0));
        }
        while i < chunk.len()
            invariant
                i <= chunk.len(),
                all@ == old(self)@ + chunk@.subrange(0, i as int),
            decreases chunk.len() - i,
        {
            all.push(chunk[i]);
            i = i + 1;
            assert(all@ =~= old(self)@ + chunk@.subrange(0, i as int));
        }
        let ghost whole = all@;
        proof {
            assert(chunk@.subrange(0, chunk@.len() as int) =~= chunk@);
            assert(whole.skip(0) =~= whole);
        }
        let n = all.len();
        let mut lines: Vec<String> = Vec::new();
        let mut start: usize = 0;
        let mut j: usize = 0;
        proof {
            assert(text::strings(lines@) + complete_lines(whole) =~= complete_lines(whole));
        }
        while j < n
            invariant
                whole == all@,
                n == all.len(),
                start <= j <= n,
                forall|k: int| start <= k < j ==> all@[k] != LINE_FEED,
                complete_lines(whole) == text::strings(lines@) + complete_lines(
                    whole.skip(start as int),
                ),
                leftover(whole) == leftover(whole.skip(start as int)),
            decreases n - j,
        {
            if all[j] == LINE_FEED {
                let ghost s = whole.skip(start as int);
                proof {
                    assert forall|k: int| 0 <= k < j - start implies s[k] != LINE_FEED by {
                        assert(s[k] == all@[start + k]);
                    }
                    lemma_index_of_at(s, LINE_FEED, j - start);
                    assert(s.subrange(0, j - start) =~= whole.subrange(start as int, j as int));
                    assert(s.subrange(j - start + 1, s.len() as int) =~= whole.skip(j + 1));
                }
                let decoded = decode_lossy(&copy_range(&all, start, j));
                let line = trim_chars(&chars_of(decoded.as_str()));
                if line.len() > 0 {
                    let ghost before = text::strings(lines@);
                    let l = string_from_chars(&line);
                    let ghost lv = l@;
                    lines.push(l);
                    proof {
                        assert(text::strings(lines@) =~= before.push(lv));
                        assert(before + (seq![lv] + complete_lines(whole.skip(j + 1))) =~= before.push(lv)
                            + complete_lines(whole.skip(j + 1)));
                    }
                }
                start = j + 1;
            }
            j = j + 1;
        }
        proof {
            let s = whole.skip(start as int);
            assert forall|k: int| 0 <= k < s.len() implies s[k] != LINE_FEED by {
                assert(s[k] == all@[start + k]);
            }
            lemma_index_of_at(s, LINE_FEED, s.len() as int);
            assert(complete_lines(s) =~= Seq::<Seq<char>>::empty());
            assert(text::strings(lines@) + complete_lines(s) =~= text::strings(lines@));
        }
        self.buffer = copy_range(&all, start, n);
        proof {
            assert(whole.subrange(start as int, n as int) =~= whole.skip(start as int));
        }
        lines
    }
}

/// One line of a streamed chat reply, as read from its JSON: the content of
/// its message, where it has one, and whether it is the last line.
pub struct ChatStreamChunk {
    /// The content of the line's message.
    pub message: Option<String>,
    /// Whether the model has finished.
    pub done: bool,
}

/// The text a line adds to the reply: its message's content, where that is
/// not empty. A line that could not be read (`None`) adds nothing.
pub open spec fn contribution(line: Option<ChatStreamChunk>) -> Option<Seq<char>> {
    match line {
        Some(c) => match c.message {
            Some(m) => if m@.len() > 0 {
                Some(m@)
            } else {
                None
            },
            None => None,
        },
        None => None,
    }
}

/// Whether a line ends the stream.
pub open spec fn ends_stream(line: Option<ChatStreamChunk>) -> bool {
    match line {
        Some(c) => c.done,
        None => false,
    }
}

/// The reply, and whether it is finished, after one more line: once the
/// stream has ended nothing changes; before, the line's contribution is
/// appended and a last line ends the stream.
pub open spec fn next_reply(reply: (Seq<char>, bool), line: Option<ChatStreamChunk>) -> (
    Seq<char>,
    bool,
) {
    if reply.1 {
        reply
    } else {
        let t = match contribution(line) {
            Some(x) => reply.0 + x,
            None => reply.0,
        };
        (t, ends_stream(line))
    }
}

/// The token shown for one more line: its contribution, unless the stream
/// has already ended.
pub open spec fn next_token(reply: (Seq<char>, bool), line: Option<ChatStreamChunk>) -> Option<
    Seq<char>,
> {
    if reply.1 {
        None
    } else {
        contribution(line)
    }
}

/// The view of an optional string.
pub open spec fn opt_chars(o: Option<String>) -> Option<Seq<char>> {
    match o {
        Some(s) => Some(s@),
        None => None,
    }
}

/// The reply after a run of lines, one step at a time.
pub open spec fn run_reply(reply: (Seq<char>, bool), lines: Seq<Option<ChatStreamChunk>>) -> (
    Seq<char>,
    bool,
)
    decreases lines.len(),
{
    if lines.len() == 0 {
        reply
    } else {
        run_reply(next_reply(reply, lines[0]), lines.drop_first())
    }
}

/// The tokens shown during a run of lines, one step at a time.
pub open spec fn run_tokens(reply: (Seq<char>, bool), lines: Seq<Option<ChatStreamChunk>>) -> Seq<
    Seq<char>,
>
    decreases lines.len(),
{
    if lines.len() == 0 {
        Seq::empty()
    } else {
        let shown = match next_token(reply, lines[0]) {
            Some(x) => seq![x],
            None => Seq::empty(),
        };
        shown + run_tokens(next_reply(reply, lines[0]), lines.drop_first())
    }
}

/// The contributions of the lines up to and including the first that ends
/// the stream, in order.
pub open spec fn reply_tokens(lines: Seq<Option<ChatStreamChunk>>) -> Seq<Seq<char>>
    decreases lines.len(),
{
    if lines.len() == 0 {
        Seq::empty()
    } else {
        let head = match contribution(lines[0]) {
            Some(x) => seq![x],
            None => Seq::empty(),
        };
        if ends_stream(lines[0]) {
            head
        } else {
            head + reply_tokens(lines.drop_first())
        }
    }
}

/// Whether some line ends the stream.
pub open spec fn stream_ended(lines: Seq<Option<ChatStreamChunk>>) -> bool {
    exists|i: int| 0 <= i < lines.len() && ends_stream(#[trigger] lines[i])
}

/// Fed a run of lines, a reply shows the contributions of the lines up to
/// the first that ends the stream, in order, and holds exactly their
/// concatenation; it is finished if and only if such a line came. Lines that
/// cannot be read are skipped, and lines after the end change nothing.
pub proof fn lemma_stream_reply(lines: Seq<Option<ChatStreamChunk>>)
    ensures
        run_tokens((Seq::empty(), false), lines) == reply_tokens(lines),
        run_reply((Seq::empty(), false), lines) == (reply_tokens(lines).flatten(), stream_ended(
            lines,
        )),
{
    lemma_stream_from(Seq::empty(), lines);
    assert(Seq::<char>::empty() + reply_tokens(lines).flatten() =~= reply_tokens(lines).flatten());
}

/// Once the stream has ended, further lines change nothing and show nothing.
proof fn lemma_stream_after_end(t: Seq<char>, lines: Seq<Option<ChatStreamChunk>>)
    ensures
        run_reply((t, true), lines) == (t, true),
        run_tokens((t, true), lines) == Seq::<Seq<char>>::empty(),
    decreases lines.len(),
{
    if lines.len() > 0 {
        lemma_stream_after_end(t, lines.drop_first());
        assert(Seq::<Seq<char>>::empty() + Seq::<Seq<char>>::empty() =~= Seq::<Seq<char>>::empty());
    }
}

/// A run from an unfinished reply `t`.
proof fn lemma_stream_from(t: Seq<char>, lines: Seq<Option<ChatStreamChunk>>)
    ensures
        run_tokens((t, false), lines) == reply_tokens(lines),
        run_reply((t, false), lines) == (t + reply_tokens(lines).flatten(), stream_ended(lines)),
    decreases lines.len(),
{
    if lines.len() == 0 {
        assert(reply_tokens(lines).flatten() =~= Seq::<char>::empty());
        assert(t + Seq::<char>::empty() =~= t);
    } else {
        let l0 = lines[0];
        let rest = lines.drop_first();
        let head = match contribution(l0) {
            Some(x) => seq![x],
            None => Seq::<Seq<char>>::empty(),
        };
        let t1 = match contribution(l0) {
            Some(x) => t + x,
            None => t,
        };
        assert(t1 =~= t + head.flatten()) by {
            let e = Seq::<Seq<char>>::empty();
            assert(e.flatten() =~= Seq::<char>::empty());
            match contribution(l0) {
                Some(x) => {
                    assert(seq![x].drop_first() =~= e);
                    assert(seq![x].flatten() == x + seq![x].drop_first().flatten());
                    assert(x + Seq::<char>::empty() =~= x);
                },
                None => {
                    assert(t + Seq::<char>::empty() =~= t);
                },
            }
        }
        if ends_stream(l0) {
            lemma_stream_after_end(t1, rest);
            assert(head + Seq::<Seq<char>>::empty() =~= head);
            assert(lines[0] == l0);
            assert(stream_ended(lines));
        } else {
            lemma_stream_from(t1, rest);
            assert(reply_tokens(lines) == head + reply_tokens(rest));
            vstd::seq_lib::lemma_flatten_concat(head, reply_tokens(rest));
            assert(t1 + reply_tokens(rest).flatten() =~= t + reply_tokens(lines).flatten());
            assert(stream_ended(lines) == stream_ended(rest)) by {
                if stream_ended(rest) {
                    let i = choose|i: int| 0 <= i < rest.len() && ends_stream(#[trigger] rest[i]);
                    assert(lines[i + 1] == rest[i]);
                }
                if stream_ended(lines) {
                    let i = choose|i: int| 0 <= i < lines.len() && ends_stream(#[trigger] lines[i]);
                    assert(i > 0);
                    assert(rest[i - 1] == lines[i]);
                }
            }
        }
    }
}

/// One line before the stream has ended: a message with non-empty content
/// `m` appends exactly `m` to the reply and shows exactly `m`; a message with
/// empty content, a line without a message, and an unreadable line change
/// nothing and show nothing; the line ends the stream exactly when it is
/// marked `done`. Once the stream has ended, no line changes anything.
pub proof fn lemma_step_appends_content(t: Seq<char>, m: String, done: bool)
    ensures
        m@.len() > 0 ==> next_reply((t, false), Some(ChatStreamChunk { message: Some(m), done }))
            == (t + m@, done),
        m@.len() > 0 ==> next_token((t, false), Some(ChatStreamChunk { message: Some(m), done }))
            == Some(m@),
        m@.len() == 0 ==> next_reply((t, false), Some(ChatStreamChunk { message: Some(m), done }))
            == (t, done),
        m@.len() == 0 ==> next_token((t, false), Some(ChatStreamChunk { message: Some(m), done }))
            is None,
        next_reply((t, false), Some(ChatStreamChunk { message: None, done })) == (t, done),
        next_token((t, false), Some(ChatStreamChunk { message: None, done })) is None,
        next_reply((t, false), None) == (t, false),
        next_token((t, false), None) is None,
        forall|line: Option<ChatStreamChunk>|
            #![auto]
            next_reply((t, true), line) == (t, true) && next_token((t, true), line) is None,
{
    assert(t + Seq::<char>::empty() =~= t);
}

/// The reply of a streamed chat, assembled from its lines.
pub struct ChatReply {
    text: String,
    finished: bool,
}

impl View for ChatReply {
    type V = (Seq<char>, bool);

    /// The reply so far, and whether the stream has ended.
    closed spec fn view(&self) -> (Seq<char>, bool) {
        (self.text@, self.finished)
    }
}

impl ChatReply {
    /// An empty, unfinished reply.
    pub fn new() -> (r: ChatReply)
        ensures
            r@ == (Seq::<char>::empty(), false),
    {
        ChatReply { text: String::new(), finished: false }
    }

    /// Takes one line of the stream, `None` where it could not be read: until
    /// the stream has ended, a non-empty message content is appended and
    /// handed back to be shown as it arrives, and a last line ends the
    /// stream; after that, lines are ignored.
    pub fn step(&mut self, line: Option<ChatStreamChunk>) -> (token: Option<String>)
        ensures
            final(self)@ == next_reply(old(self)@, line),
            opt_chars(token) == next_token(old(self)@, line),
    {
        if self.finished {
            return None;
        }
        match line {
            Some(c) => {
                let token = match c.message {
                    Some(m) => {
                        if m.as_str().unicode_len() > 0 {
                            append_str(&mut self.text, m.as_str());
                            Some(m)
                        } else {
                            None
                        }
                    },
                    None => None,
                };
                self.finished = c.done;
                token
            },
            None => None,
        }
    }

    /// Whether the stream has ended.
    pub fn is_finished(&self) -> (r: bool)
        ensures
            r == self@.1,
    {
        self.finished
    }

    /// The reply so far.
    pub fn text(&self) -> (r: String)
        ensures
            r@ == self@.0,
    {
        self.text.clone()
    }
}

/// A chat message sent to the model.
pub struct ChatMessage {
    /// `system`, `user` or `assistant`.
    pub role: String,
    /// The message text.
    pub content: String,
}

} // verus!
