//! Text chunker. Splits on paragraph boundaries (blank lines) when possible so
//! chunks stay coherent, falling back to a hard character cut for very long
//! paragraphs. Lengths are counted in characters, not bytes, so it behaves the
//! same on Chinese text, which has no whitespace word boundaries.
use vstd::prelude::*;
use crate::text;
use crate::text::{chars_of, append_all, copy_range, string_from_chars, trim_chars};

verus! {

/// Target size of a chunk, in characters.
pub const CHUNK_SIZE_CHARS: usize = 800;

/// Characters repeated from the end of one chunk at the start of the next.
pub const CHUNK_OVERLAP_CHARS: usize = 150;

/// The longest chunk that `chunk_text` can produce: a carried-over tail, the
/// blank-line separator and one paragraph of full chunk size.
pub open spec fn max_chunk_chars() -> nat {
    (CHUNK_SIZE_CHARS + CHUNK_OVERLAP_CHARS + 2) as nat
}

/// Splitting on the separator `"\n\n"`, scanning left to right and taking
/// non-overlapping matches as `str::split` does; `cur` is the piece being built.
pub open spec fn split_acc(s: Seq<char>, cur: Seq<char>) -> Seq<Seq<char>>
    decreases s.len(),
{
    if s.len() == 0 {
        seq![cur]
    } else if s.len() >= 2 && s[0] == '\n' && s[1] == '\n' {
        seq![cur] + split_acc(s.skip(2), Seq::empty())
    } else {
        split_acc(s.drop_first(), cur.push(s[0]))
    }
}

/// The pieces of `s` between blank-line separators (`"\n\n"`).
pub open spec fn split_on_blank_lines(s: Seq<char>) -> Seq<Seq<char>> {
    split_acc(s, Seq::empty())
}

/// The trimmed pieces, with the empty ones left out, in order.
pub open spec fn trimmed_nonempty(pieces: Seq<Seq<char>>) -> Seq<Seq<char>>
    decreases pieces.len(),
{
    if pieces.len() == 0 {
        Seq::empty()
    } else {
        let rest = trimmed_nonempty(pieces.drop_last());
        let t = text::trim(pieces.last());
        if t.len() > 0 {
            rest.push(t)
        } else {
            rest
        }
    }
}

/// The paragraphs of a text: its blank-line separated pieces, trimmed, the
/// empty ones dropped.
pub open spec fn paragraphs(text: Seq<char>) -> Seq<Seq<char>> {
    trimmed_nonempty(split_on_blank_lines(text))
}

/// The tail of a chunk that is repeated at the start of the next one: its
/// last `CHUNK_OVERLAP_CHARS` characters, or nothing when it is not longer.
pub open spec fn carry_over_spec(prev: Seq<char>) -> Seq<char> {
    if prev.len() <= CHUNK_OVERLAP_CHARS {
        Seq::empty()
    } else {
        prev.subrange(prev.len() - CHUNK_OVERLAP_CHARS, prev.len() as int)
    }
}

/// Hard split from `start`: windows of `CHUNK_SIZE_CHARS` characters, each
/// starting `CHUNK_OVERLAP_CHARS` before the end of the previous one.
pub open spec fn hard_split_from(text: Seq<char>, start: int) -> Seq<Seq<char>>
    decreases text.len() - start,
{
    if start < 0 || start >= text.len() {
        Seq::empty()
    } else {
        let end = if start + CHUNK_SIZE_CHARS < text.len() {
            start + CHUNK_SIZE_CHARS
        } else {
            text.len() as int
        };
        let piece = text.subrange(start, end);
        if end == text.len() {
            seq![piece]
        } else {
            seq![piece] + hard_split_from(text, end - CHUNK_OVERLAP_CHARS)
        }
    }
}

/// The hard split of a whole text.
pub open spec fn hard_split_spec(text: Seq<char>) -> Seq<Seq<char>> {
    hard_split_from(text, 0)
}

/// The `k`-th window of the hard split: it starts `k` strides of
/// `CHUNK_SIZE_CHARS - CHUNK_OVERLAP_CHARS` in and is at most `CHUNK_SIZE_CHARS` long.
pub open spec fn window(text: Seq<char>, k: int) -> Seq<char> {
    let stride = CHUNK_SIZE_CHARS - CHUNK_OVERLAP_CHARS;
    let start = k * stride;
    let end = if start + CHUNK_SIZE_CHARS < text.len() {
        start + CHUNK_SIZE_CHARS
    } else {
        text.len() as int
    };
    text.subrange(start, end)
}

/// One paragraph's effect on the chunks so far and the chunk being built.
pub open spec fn step(state: (Seq<Seq<char>>, Seq<char>), para: Seq<char>) -> (
    Seq<Seq<char>>,
    Seq<char>,
) {
    let chunks = state.0;
    let cur = state.1;
    let flush = cur.len() + para.len() > CHUNK_SIZE_CHARS && cur.len() > 0;
    let chunks1 = if flush {
        chunks.push(cur)
    } else {
        chunks
    };
    let cur1 = if flush {
        carry_over_spec(cur)
    } else {
        cur
    };
    if para.len() > CHUNK_SIZE_CHARS {
        let chunks2 = if cur1.len() > 0 {
            chunks1.push(cur1)
        } else {
            chunks1
        };
        (chunks2 + hard_split_spec(para), Seq::empty())
    } else if cur1.len() > 0 {
        (chunks1, cur1 + seq!['\n', '\n'] + para)
    } else {
        (chunks1, para)
    }
}

/// The chunks and the chunk being built after taking the paragraphs in order.
pub open spec fn fold_paragraphs(paras: Seq<Seq<char>>) -> (Seq<Seq<char>>, Seq<char>)
    decreases paras.len(),
{
    if paras.len() == 0 {
        (Seq::empty(), Seq::empty())
    } else {
        step(fold_paragraphs(paras.drop_last()), paras.last())
    }
}

/// The chunks of a text, as `chunk_text` returns them.
pub open spec fn spec_chunk_text(text: Seq<char>) -> Seq<Seq<char>> {
    let folded = fold_paragraphs(paragraphs(text));
    let chunks = if text::trim(folded.1).len() > 0 {
        folded.0.push(folded.1)
    } else {
        folded.0
    };
    if chunks.len() == 0 && text::trim(text).len() > 0 {
        hard_split_spec(text::trim(text))
    } else {
        chunks
    }
}

/// Splits the characters of a text at its blank-line separators.
fn split_blank_lines(s: &Vec<char>) -> (r: Vec<Vec<char>>)
    ensures
        text::char_vecs(r@) == split_on_blank_lines(s@),
{
    let n = s.len();
    let mut pieces: Vec<Vec<char>> = Vec::new();
    let mut cur: Vec<char> = Vec::new();
    let mut i: usize = 0;
    proof {
        assert(s@.skip(0) =~= s@);
        assert(text::char_vecs(pieces@) =~= Seq::<Seq<char>>::empty());
        assert(cur@ =~= Seq::<char>::empty());
        assert(Seq::<Seq<char>>::empty() + split_acc(s@, Seq::empty()) =~= split_acc(s@, Seq::empty()));
    }
    while i < n
        invariant
            n == s.len(),
            i <= n,
            split_on_blank_lines(s@) == text::char_vecs(pieces@) + split_acc(s@.skip(i as int), cur@),
        decreases n - i,
    {
        let ghost rest = s@.skip(i as int);
        if i + 1 < n && s[i] == '\n' && s[i + 1] == '\n' {
            proof {
                assert(rest.skip(2) =~= s@.skip(i + 2));
            }
            let ghost old_pieces = text::char_vecs(pieces@);
            let ghost old_cur = cur@;
            pieces.push(cur);
            cur = Vec::new();
            proof {
                assert(text::char_vecs(pieces@) =~= old_pieces + seq![old_cur]);
            }
            i = i + 2;
        } else {
            proof {
                assert(rest.drop_first() =~= s@.skip(i + 1));
            }
            cur.push(s[i]);
            i = i + 1;
        }
    }
    proof {
        assert(s@.skip(n as int) =~= Seq::<char>::empty());
    }
    let ghost before = text::char_vecs(pieces@);
    pieces.push(cur);
    proof {
        assert(text::char_vecs(pieces@) =~= before + seq![cur@]);
    }
    pieces
}

/// The trimmed, non-empty pieces, in order.
fn trimmed_pieces(pieces: &Vec<Vec<char>>) -> (r: Vec<Vec<char>>)
    ensures
        text::char_vecs(r@) == trimmed_nonempty(text::char_vecs(pieces@)),
{
    let mut r: Vec<Vec<char>> = Vec::new();
    let mut i: usize = 0;
    proof {
        assert(text::char_vecs(pieces@).take(0) =~= Seq::<Seq<char>>::empty());
        assert(text::char_vecs(r@) =~= Seq::<Seq<char>>::empty());
    }
    while i < pieces.len()
        invariant
            i <= pieces.len(),
            text::char_vecs(r@) == trimmed_nonempty(text::char_vecs(pieces@).take(i as int)),
        decreases pieces.len() - i,
    {
        let t = trim_chars(&pieces[i]);
        let ghost all = text::char_vecs(pieces@);
        proof {
            assert(all.take(i + 1).drop_last() =~= all.take(i as int));
            assert(all.take(i + 1).last() == pieces@[i as int]@);
        }
        if t.len() > 0 {
            let ghost before = text::char_vecs(r@);
            let ghost tv = t@;
            r.push(t);
            proof {
                assert(text::char_vecs(r@) =~= before.push(tv));
            }
        }
        i = i + 1;
    }
    proof {
        assert(text::char_vecs(pieces@).take(pieces.len() as int) =~= text::char_vecs(pieces@));
    }
    r
}

/// The last `CHUNK_OVERLAP_CHARS` characters of `prev_chunk`, or nothing when it
/// is not longer than that.
pub fn carry_over(prev_chunk: &str) -> (r: String)
    ensures
        r@ == carry_over_spec(prev_chunk@),
{
    string_from_chars(&carry_over_chars(&chars_of(prev_chunk)))
}

/// [`carry_over`] on a character vector.
fn carry_over_chars(prev_chunk: &Vec<char>) -> (r: Vec<char>)
    ensures
        r@ == carry_over_spec(prev_chunk@),
{
    let n = prev_chunk.len();
    if n <= CHUNK_OVERLAP_CHARS {
        let r: Vec<char> = Vec::new();
        proof {
            assert(r@ =~= Seq::<char>::empty());
        }
        r
    } else {
        copy_range(prev_chunk, n - CHUNK_OVERLAP_CHARS, n)
    }
}

/// Cuts `text` into windows of `CHUNK_SIZE_CHARS` characters that overlap by
/// `CHUNK_OVERLAP_CHARS` (see [`lemma_hard_split_windows`] and
/// [`lemma_hard_split_rejoins`]).
pub fn hard_split(text: &str) -> (r: Vec<String>)
    ensures
        text::strings(r@) == hard_split_spec(text@),
{
    hard_split_chars(&chars_of(text))
}

/// [`hard_split`] on a character vector.
fn hard_split_chars(chars: &Vec<char>) -> (r: Vec<String>)
    ensures
        text::strings(r@) == hard_split_spec(chars@),
{
    let n = chars.len();
    let mut pieces: Vec<String> = Vec::new();
    let mut start: usize = 0;
    proof {
        assert(text::strings(pieces@) =~= Seq::<Seq<char>>::empty());
        assert(Seq::<Seq<char>>::empty() + hard_split_from(chars@, 0) =~= hard_split_from(chars@, 0));
    }
    while start < n
        invariant
            n == chars.len(),
            start <= n,
            hard_split_spec(chars@) == text::strings(pieces@) + hard_split_from(chars@, start as int),
        decreases n - start,
    {
        let end = if n - start > CHUNK_SIZE_CHARS {
            start + CHUNK_SIZE_CHARS
        } else {
            n
        };
        let piece = string_from_chars(&copy_range(chars, start, end));
        let ghost before = text::strings(pieces@);
        let ghost pv = piece@;
        pieces.push(piece);
        proof {
            assert(text::strings(pieces@) =~= before.push(pv));
        }
        if end == n {
            proof {
                assert(before + hard_split_from(chars@, start as int) =~= before.push(pv));
                assert(text::strings(pieces@) + hard_split_from(chars@, n as int) =~= text::strings(pieces@));
            }
            start = n;
        } else {
            proof {
                assert(before + hard_split_from(chars@, start as int) =~= before.push(pv)
                    + hard_split_from(chars@, end - CHUNK_OVERLAP_CHARS));
            }
            start = end - CHUNK_OVERLAP_CHARS;
        }
    }
    pieces
}

/// Moves every string of `more` to the end of `dst`.
fn append_strings(dst: &mut Vec<String>, more: Vec<String>)
    ensures
        text::strings(final(dst)@) == text::strings(old(dst)@) + text::strings(more@),
{
    let mut more = more;
    let ghost m = more@;
    dst.append(&mut more);
    proof {
        assert(text::strings(dst@) =~= text::strings(old(dst)@) + text::strings(m));
    }
}

/// Splits a text into chunks for embedding: paragraphs (pieces between blank
/// lines, trimmed, empty ones dropped) are packed greedily into chunks of about
/// `CHUNK_SIZE_CHARS` characters, joined by a blank line. When a paragraph
/// would overflow the chunk being built, that chunk is closed and the next one
/// starts with its last `CHUNK_OVERLAP_CHARS` characters. A paragraph longer
/// than `CHUNK_SIZE_CHARS` is cut into overlapping windows of its own.
pub fn chunk_text(text: &str) -> (r: Vec<String>)
    ensures
        text::strings(r@) == spec_chunk_text(text@),
{
    let chars = chars_of(text);
    let pieces = split_blank_lines(&chars);
    let paras = trimmed_pieces(&pieces);
    let ghost ps = text::char_vecs(paras@);

    let mut chunks: Vec<String> = Vec::new();
    let mut current: Vec<char> = Vec::new();
    let mut i: usize = 0;
    proof {
        assert(ps.take(0) =~= Seq::<Seq<char>>::empty());
        assert(text::strings(chunks@) =~= Seq::<Seq<char>>::empty());
        assert(current@ =~= Seq::<char>::empty());
    }
    while i < paras.len()
        invariant
            i <= paras.len(),
            ps == text::char_vecs(paras@),
            (text::strings(chunks@), current@) == fold_paragraphs(ps.take(i as int)),
        decreases paras.len() - i,
    {
        let para = &paras[i];
        proof {
            assert(ps.take(i + 1).drop_last() =~= ps.take(i as int));
            assert(ps.take(i + 1).last() == para@);
        }
        let flush = current.len() > 0 && (para.len() > CHUNK_SIZE_CHARS || current.len()
            > CHUNK_SIZE_CHARS - para.len());
        if flush {
            let ghost before = text::strings(chunks@);
            let s = string_from_chars(&current);
            chunks.push(s);
            proof {
                assert(text::strings(chunks@) =~= before.push(current@));
            }
            current = carry_over_chars(&current);
        }
        if para.len() > CHUNK_SIZE_CHARS {
            if current.len() > 0 {
                let ghost before = text::strings(chunks@);
                let s = string_from_chars(&current);
                chunks.push(s);
                proof {
                    assert(text::strings(chunks@) =~= before.push(current@));
                }
                current = Vec::new();
            }
            let hard = hard_split_chars(para);
            append_strings(&mut chunks, hard);
            proof {
                assert(current@ =~= Seq::<char>::empty());
            }
        } else {
            if current.len() > 0 {
                current.push('\n');
                current.push('\n');
            }
            append_all(&mut current, para);
        }
        i = i + 1;
    }
    proof {
        assert(ps.take(paras.len() as int) =~= ps);
    }
    let trimmed_current = trim_chars(&current);
    if trimmed_current.len() > 0 {
        let ghost before = text::strings(chunks@);
        let s = string_from_chars(&current);
        chunks.push(s);
        proof {
            assert(text::strings(chunks@) =~= before.push(current@));
        }
    }
    if chunks.len() == 0 {
        let trimmed_text = trim_chars(&chars);
        if trimmed_text.len() > 0 {
            chunks = hard_split_chars(&trimmed_text);
        }
    }
    chunks
}

/// The windows of a hard split that starts at window `j`.
proof fn lemma_windows_from(t: Seq<char>, j: int)
    requires
        j >= 0,
    ensures
        ({
            let r = hard_split_from(t, j * 650);
            &&& forall|k: int|
                0 <= k < r.len() ==> {
                    &&& #[trigger] r[k] == window(t, j + k)
                    &&& (j + k) * 650 < t.len()
                    &&& k < r.len() - 1 ==> (j + k) * 650 + 800 < t.len()
                }
            &&& (r.len() == 0 <==> j * 650 >= t.len())
            &&& r.len() > 0 ==> (j + r.len() - 1) * 650 + 800 >= t.len()
        }),
    decreases t.len() - j * 650,
{
    let r = hard_split_from(t, j * 650);
    if j * 650 >= t.len() {
    } else {
        let start = j * 650;
        let end = if start + 800 < t.len() {
            start + 800
        } else {
            t.len() as int
        };
        if end == t.len() {
            assert(r =~= seq![t.subrange(start, end)]);
            assert(r[0] == window(t, j + 0));
        } else {
            assert(end - 150 == (j + 1) * 650);
            lemma_windows_from(t, j + 1);
            let rest = hard_split_from(t, (j + 1) * 650);
            assert(r =~= seq![t.subrange(start, end)] + rest);
            assert forall|k: int| 0 <= k < r.len() implies {
                &&& #[trigger] r[k] == window(t, j + k)
                &&& (j + k) * 650 < t.len()
                &&& k < r.len() - 1 ==> (j + k) * 650 + 800 < t.len()
            } by {
                if k > 0 {
                    assert(r[k] == rest[k - 1]);
                    assert(j + 1 + (k - 1) == j + k);
                }
            }
        }
    }
}

/// The hard split of a text is the sequence of its windows: window `k` starts
/// at `k * (CHUNK_SIZE_CHARS - CHUNK_OVERLAP_CHARS)` and holds up to
/// `CHUNK_SIZE_CHARS` characters; the windows go on until one reaches the end
/// of the text, and an empty text has none. So consecutive windows share
/// exactly `CHUNK_OVERLAP_CHARS` characters and together they cover the text.
pub proof fn lemma_hard_split_windows(t: Seq<char>)
    ensures
        forall|k: int|
            0 <= k < hard_split_spec(t).len() ==> {
                &&& #[trigger] hard_split_spec(t)[k] == window(t, k)
                &&& k * (CHUNK_SIZE_CHARS - CHUNK_OVERLAP_CHARS) < t.len()
                &&& k < hard_split_spec(t).len() - 1 ==> k * (CHUNK_SIZE_CHARS
                    - CHUNK_OVERLAP_CHARS) + CHUNK_SIZE_CHARS < t.len()
            },
        (hard_split_spec(t).len() == 0) <==> (t.len() == 0),
        hard_split_spec(t).len() > 0 ==> (hard_split_spec(t).len() - 1) * (CHUNK_SIZE_CHARS
            - CHUNK_OVERLAP_CHARS) + CHUNK_SIZE_CHARS >= t.len(),
{
    lemma_windows_from(t, 0);
    assert(0int * 650 == 0);
    assert(hard_split_from(t, 0int * 650) == hard_split_spec(t));
    assert forall|k: int| 0 <= k < hard_split_spec(t).len() implies {
        &&& #[trigger] hard_split_spec(t)[k] == window(t, k)
        &&& k * (CHUNK_SIZE_CHARS - CHUNK_OVERLAP_CHARS) < t.len()
        &&& k < hard_split_spec(t).len() - 1 ==> k * (CHUNK_SIZE_CHARS - CHUNK_OVERLAP_CHARS)
            + CHUNK_SIZE_CHARS < t.len()
    } by {
        assert(0 + k == k);
    }
}

/// Every piece of a hard split holds between one and `CHUNK_SIZE_CHARS` characters.
pub proof fn lemma_hard_split_piece_lengths(t: Seq<char>)
    ensures
        forall|k: int|
            0 <= k < hard_split_spec(t).len() ==> 0 < (#[trigger] hard_split_spec(t)[k]).len()
                <= CHUNK_SIZE_CHARS,
{
    lemma_hard_split_windows(t);
    assert forall|k: int| 0 <= k < hard_split_spec(t).len() implies 0 < (
    #[trigger] hard_split_spec(t)[k]).len() <= CHUNK_SIZE_CHARS by {
        assert(hard_split_spec(t)[k] == window(t, k));
    }
}

/// A text of at most `CHUNK_SIZE_CHARS` characters is not cut: its hard split
/// is the text itself, or nothing when it is empty.
pub proof fn lemma_hard_split_short(t: Seq<char>)
    requires
        t.len() <= CHUNK_SIZE_CHARS,
    ensures
        hard_split_spec(t) == if t.len() == 0 {
            Seq::<Seq<char>>::empty()
        } else {
            seq![t]
        },
{
    if t.len() > 0 {
        assert(t.subrange(0, t.len() as int) =~= t);
    }
}

/// A text of `m > CHUNK_SIZE_CHARS` characters is cut into
/// `1 + ceil((m - CHUNK_SIZE_CHARS) / (CHUNK_SIZE_CHARS - CHUNK_OVERLAP_CHARS))`
/// pieces.
pub proof fn lemma_hard_split_count(t: Seq<char>)
    requires
        t.len() > CHUNK_SIZE_CHARS,
    ensures
        hard_split_spec(t).len() == 1 + (t.len() - CHUNK_SIZE_CHARS + (CHUNK_SIZE_CHARS
            - CHUNK_OVERLAP_CHARS - 1)) / ((CHUNK_SIZE_CHARS - CHUNK_OVERLAP_CHARS) as int),
{
    lemma_hard_split_windows(t);
    let n = hard_split_spec(t).len() as int;
    let m = t.len() as int;
    assert(n >= 1);
    if n == 1 {
        assert(800 >= m);
        assert(false);
    }
    let q = n - 1;
    assert(q * 650 + 800 >= m);
    let last_full = hard_split_spec(t)[n - 2];
    assert((n - 2) * 650 + 800 < m);
    assert((q - 1) * 650 + 800 < m);
    assert(q == (m - 800 + 649) / 650) by (nonlinear_arith)
        requires
            q * 650 >= m - 800,
            (q - 1) * 650 < m - 800,
            m > 800,
    ;
}

/// The text that pieces overlapping by `CHUNK_OVERLAP_CHARS` stand for: the
/// first piece, then each later piece without its first
/// `CHUNK_OVERLAP_CHARS` characters.
pub open spec fn rejoin(pieces: Seq<Seq<char>>) -> Seq<char> {
    pieces[0] + pieces.drop_first().map_values(|p: Seq<char>| p.skip(CHUNK_OVERLAP_CHARS as int)).flatten()
}

/// The hard split from a window start rejoins to the rest of the text.
proof fn lemma_rejoin_from(t: Seq<char>, j: int)
    requires
        j >= 0,
        j * 650 < t.len(),
    ensures
        hard_split_from(t, j * 650).len() > 0,
        rejoin(hard_split_from(t, j * 650)) == t.subrange(j * 650, t.len() as int),
    decreases t.len() - j * 650,
{
    let start = j * 650;
    let r = hard_split_from(t, start);
    let end = if start + 800 < t.len() {
        start + 800
    } else {
        t.len() as int
    };
    let piece = t.subrange(start, end);
    let f = |p: Seq<char>| p.skip(CHUNK_OVERLAP_CHARS as int);
    if end == t.len() {
        assert(r =~= seq![piece]);
        assert(r.drop_first() =~= Seq::<Seq<char>>::empty());
        assert(r.drop_first().map_values(f) =~= Seq::<Seq<char>>::empty());
        assert(Seq::<Seq<char>>::empty().flatten() =~= Seq::<char>::empty());
        assert(piece + Seq::<char>::empty() =~= piece);
    } else {
        assert(end - 150 == (j + 1) * 650);
        lemma_rejoin_from(t, j + 1);
        let rest = hard_split_from(t, (j + 1) * 650);
        assert(r =~= seq![piece] + rest);
        assert(r.drop_first() =~= rest);
        let mr = rest.map_values(f);
        let first = rest[0];
        let tail = rest.drop_first().map_values(f).flatten();
        // `rest` rejoins to the text from `end - 150`; its first piece is longer
        // than the overlap.
        assert(first + tail == t.subrange(end - 150, t.len() as int));
        assert(first.len() >= 150) by {
            lemma_windows_from(t, j + 1);
            assert(rest[0] == window(t, j + 1));
        }
        assert(mr.drop_first() =~= rest.drop_first().map_values(f));
        assert(mr.flatten() == mr[0] + mr.drop_first().flatten());
        assert(mr[0] == first.skip(150));
        assert(first.skip(150) + tail =~= t.subrange(end, t.len() as int)) by {
            assert((first + tail).skip(150) =~= first.skip(150) + tail);
            assert(t.subrange(end - 150, t.len() as int).skip(150) =~= t.subrange(end, t.len() as int));
        }
        assert(piece + t.subrange(end, t.len() as int) =~= t.subrange(start, t.len() as int));
    }
}

/// The pieces of a hard split rejoin to the text: the first piece, then each
/// later piece without the `CHUNK_OVERLAP_CHARS` characters it repeats, give
/// back the text exactly. Every piece but the last holds `CHUNK_SIZE_CHARS`
/// characters; the last holds between one and `CHUNK_SIZE_CHARS`, and more
/// than `CHUNK_OVERLAP_CHARS` when there are several.
pub proof fn lemma_hard_split_rejoins(t: Seq<char>)
    requires
        t.len() > 0,
    ensures
        ({
            let hs = hard_split_spec(t);
            let n = hs.len() as int;
            &&& n >= 1
            &&& rejoin(hs) == t
            &&& forall|k: int| 0 <= k < n - 1 ==> (#[trigger] hs[k]).len() == CHUNK_SIZE_CHARS
            &&& 1 <= hs[n - 1].len() <= CHUNK_SIZE_CHARS
            &&& n >= 2 ==> hs[n - 1].len() > CHUNK_OVERLAP_CHARS
        }),
{
    lemma_rejoin_from(t, 0);
    assert(0int * 650 == 0);
    assert(t.subrange(0, t.len() as int) =~= t);
    lemma_hard_split_windows(t);
    let hs = hard_split_spec(t);
    let n = hs.len() as int;
    assert forall|k: int| 0 <= k < n - 1 implies (#[trigger] hs[k]).len() == CHUNK_SIZE_CHARS by {
        assert(hs[k] == window(t, k));
    }
    assert(hs[n - 1] == window(t, n - 1));
    if n >= 2 {
        assert(hs[n - 2] == window(t, n - 2));
        assert((n - 2) * 650 + 800 < t.len());
        assert((n - 1) * 650 == (n - 2) * 650 + 650);
    }
}

/// Every paragraph is non-empty.
proof fn lemma_trimmed_nonempty_entries(pieces: Seq<Seq<char>>)
    ensures
        forall|i: int|
            0 <= i < trimmed_nonempty(pieces).len() ==> (#[trigger] trimmed_nonempty(pieces)[i]).len()
                > 0,
    decreases pieces.len(),
{
    if pieces.len() > 0 {
        lemma_trimmed_nonempty_entries(pieces.drop_last());
        let rest = trimmed_nonempty(pieces.drop_last());
        let t = text::trim(pieces.last());
        if t.len() > 0 {
            assert forall|i: int| 0 <= i < rest.push(t).len() implies (#[trigger] rest.push(
                t,
            )[i]).len() > 0 by {
                if i < rest.len() {
                    assert(rest.push(t)[i] == rest[i]);
                }
            }
        }
    }
}

/// Whether every chunk in `chunks` holds between one and `max_chunk_chars()` characters.
pub open spec fn chunks_within_bounds(chunks: Seq<Seq<char>>) -> bool {
    forall|j: int| 0 <= j < chunks.len() ==> 0 < (#[trigger] chunks[j]).len() <= max_chunk_chars()
}

/// Folding non-empty paragraphs keeps every chunk, and the chunk being built,
/// within `max_chunk_chars()` characters.
proof fn lemma_fold_bounds(paras: Seq<Seq<char>>)
    requires
        forall|i: int| 0 <= i < paras.len() ==> (#[trigger] paras[i]).len() > 0,
    ensures
        chunks_within_bounds(fold_paragraphs(paras).0),
        fold_paragraphs(paras).1.len() <= max_chunk_chars(),
    decreases paras.len(),
{
    if paras.len() > 0 {
        let prev = paras.drop_last();
        assert forall|i: int| 0 <= i < prev.len() implies (#[trigger] prev[i]).len() > 0 by {
            assert(prev[i] == paras[i]);
        }
        lemma_fold_bounds(prev);
        let para = paras.last();
        assert(para == paras[paras.len() - 1]);
        lemma_hard_split_piece_lengths(para);
        let st = fold_paragraphs(prev);
        let chunks = st.0;
        let cur = st.1;
        let flush = cur.len() + para.len() > CHUNK_SIZE_CHARS && cur.len() > 0;
        let chunks1 = if flush {
            chunks.push(cur)
        } else {
            chunks
        };
        let cur1 = if flush {
            carry_over_spec(cur)
        } else {
            cur
        };
        assert(chunks_within_bounds(chunks1));
        assert(cur1.len() <= max_chunk_chars());
        if para.len() > CHUNK_SIZE_CHARS {
            let chunks2 = if cur1.len() > 0 {
                chunks1.push(cur1)
            } else {
                chunks1
            };
            assert(chunks_within_bounds(chunks2));
            let all = chunks2 + hard_split_spec(para);
            assert forall|j: int| 0 <= j < all.len() implies 0 < (#[trigger] all[j]).len()
                <= max_chunk_chars() by {
                if j >= chunks2.len() {
                    assert(all[j] == hard_split_spec(para)[j - chunks2.len()]);
                }
            }
        }
    }
}

/// Every chunk that `chunk_text` returns is non-empty and holds at most
/// `CHUNK_SIZE_CHARS + CHUNK_OVERLAP_CHARS + 2` characters (a carried-over
/// tail, the blank-line separator and one paragraph of full chunk size).
pub proof fn lemma_chunk_lengths(text: Seq<char>)
    ensures
        chunks_within_bounds(spec_chunk_text(text)),
{
    let paras = paragraphs(text);
    lemma_trimmed_nonempty_entries(split_on_blank_lines(text));
    lemma_fold_bounds(paras);
    lemma_hard_split_piece_lengths(text::trim(text));
    let folded = fold_paragraphs(paras);
    if text::trim(folded.1).len() > 0 {
        assert(folded.1.len() > 0) by {
            if folded.1.len() == 0 {
                assert(text::trim_start(folded.1) == folded.1);
            }
        }
        assert(chunks_within_bounds(folded.0.push(folded.1)));
    }
}

/// The pieces of a whitespace-only text are whitespace-only.
proof fn lemma_split_whitespace(s: Seq<char>, cur: Seq<char>)
    requires
        text::all_whitespace(s),
        text::all_whitespace(cur),
    ensures
        forall|i: int|
            0 <= i < split_acc(s, cur).len() ==> text::all_whitespace(#[trigger] split_acc(s, cur)[i]),
    decreases s.len(),
{
    if s.len() == 0 {
        assert(split_acc(s, cur) =~= seq![cur]);
        assert(split_acc(s, cur)[0] == cur);
    } else if s.len() >= 2 && s[0] == '\n' && s[1] == '\n' {
        let t = s.skip(2);
        assert forall|i: int| 0 <= i < t.len() implies text::char_is_whitespace(#[trigger] t[i]) by {
            assert(t[i] == s[i + 2]);
        }
        lemma_split_whitespace(t, Seq::empty());
        let r = split_acc(s, cur);
        assert(r == seq![cur] + split_acc(t, Seq::empty()));
        assert forall|i: int| 0 <= i < r.len() implies text::all_whitespace(#[trigger] r[i]) by {
            if i > 0 {
                assert(r[i] == split_acc(t, Seq::empty())[i - 1]);
            } else {
                assert(r[0] == cur);
            }
        }
    } else {
        let t = s.drop_first();
        assert forall|i: int| 0 <= i < t.len() implies text::char_is_whitespace(#[trigger] t[i]) by {
            assert(t[i] == s[i + 1]);
        }
        let c2 = cur.push(s[0]);
        assert forall|i: int| 0 <= i < c2.len() implies text::char_is_whitespace(#[trigger] c2[i]) by {
            if i < cur.len() {
                assert(c2[i] == cur[i]);
            }
        }
        lemma_split_whitespace(t, c2);
        assert(split_acc(s, cur) == split_acc(t, c2));
    }
}

/// Trimming whitespace-only pieces leaves no paragraph.
proof fn lemma_trimmed_whitespace(pieces: Seq<Seq<char>>)
    requires
        forall|i: int| 0 <= i < pieces.len() ==> text::all_whitespace(#[trigger] pieces[i]),
    ensures
        trimmed_nonempty(pieces).len() == 0,
    decreases pieces.len(),
{
    if pieces.len() > 0 {
        let prev = pieces.drop_last();
        assert forall|i: int| 0 <= i < prev.len() implies text::all_whitespace(#[trigger] prev[i]) by {
            assert(prev[i] == pieces[i]);
        }
        lemma_trimmed_whitespace(prev);
        text::lemma_trim_empty_iff(pieces.last());
        assert(text::all_whitespace(pieces[pieces.len() - 1]));
    }
}

/// `chunk_text` returns no chunk exactly when the text is empty or consists of
/// whitespace only.
pub proof fn lemma_no_chunks_iff_blank(t: Seq<char>)
    ensures
        (spec_chunk_text(t).len() == 0) <==> text::all_whitespace(t),
{
    text::lemma_trim_empty_iff(t);
    lemma_hard_split_windows(text::trim(t));
    if text::all_whitespace(t) {
        assert(text::all_whitespace(Seq::<char>::empty()));
        lemma_split_whitespace(t, Seq::empty());
        lemma_trimmed_whitespace(split_on_blank_lines(t));
        assert(paragraphs(t) =~= Seq::<Seq<char>>::empty());
        let folded = fold_paragraphs(paragraphs(t));
        assert(folded.1 =~= Seq::<char>::empty());
        assert(text::trim(folded.1).len() == 0);
    }
}

/// Whether `piece` occurs within some chunk of `chunks`.
pub open spec fn in_some_chunk(chunks: Seq<Seq<char>>, piece: Seq<char>) -> bool {
    exists|j: int| 0 <= j < chunks.len() && text::contains_seq(#[trigger] chunks[j], piece)
}

/// Whether `run` occurs in `chunks` as consecutive chunks, in order.
pub open spec fn has_run(chunks: Seq<Seq<char>>, run: Seq<Seq<char>>) -> bool {
    exists|j: int|
        0 <= j && j + run.len() <= chunks.len() && #[trigger] chunks.subrange(j, j + run.len())
            == run
}

/// Whether a paragraph is kept by `chunks`: a paragraph of at most
/// `CHUNK_SIZE_CHARS` characters occurs whole within some chunk; the windows
/// of the hard split of a longer one are consecutive chunks, in order.
pub open spec fn paragraph_kept(chunks: Seq<Seq<char>>, para: Seq<char>) -> bool {
    if para.len() <= CHUNK_SIZE_CHARS {
        in_some_chunk(chunks, para)
    } else {
        has_run(chunks, hard_split_spec(para))
    }
}

/// Whether a paragraph is kept by the chunks so far or, when short, by the
/// chunk being built.
spec fn kept_in_state(state: (Seq<Seq<char>>, Seq<char>), para: Seq<char>) -> bool {
    paragraph_kept(state.0, para) || (para.len() <= CHUNK_SIZE_CHARS && text::contains_seq(
        state.1,
        para,
    ))
}

/// A sequence occurs within itself.
proof fn lemma_contains_self(s: Seq<char>)
    ensures
        text::contains_seq(s, s),
{
    assert(s.subrange(0, 0 + s.len() as int) =~= s);
}

/// An occurrence within `a` is still one within `a + b`, and one within `b` is
/// one within `a + b` too.
proof fn lemma_contains_concat(a: Seq<char>, b: Seq<char>, p: Seq<char>)
    ensures
        text::contains_seq(a, p) ==> text::contains_seq(a + b, p),
        text::contains_seq(b, p) ==> text::contains_seq(a + b, p),
{
    if text::contains_seq(a, p) {
        let i = choose|i: int|
            0 <= i && i + p.len() <= a.len() && #[trigger] a.subrange(i, i + p.len()) == p;
        assert((a + b).subrange(i, i + p.len()) =~= a.subrange(i, i + p.len()));
    }
    if text::contains_seq(b, p) {
        let i = choose|i: int|
            0 <= i && i + p.len() <= b.len() && #[trigger] b.subrange(i, i + p.len()) == p;
        assert((a + b).subrange(a.len() + i, a.len() + i + p.len()) =~= b.subrange(i, i + p.len()));
    }
}

/// A kept paragraph stays kept when chunks are added after the existing ones.
proof fn lemma_kept_extend(chunks: Seq<Seq<char>>, more: Seq<Seq<char>>, para: Seq<char>)
    requires
        paragraph_kept(chunks, para),
    ensures
        paragraph_kept(chunks + more, para),
{
    let all = chunks + more;
    if para.len() <= CHUNK_SIZE_CHARS {
        let j = choose|j: int| 0 <= j < chunks.len() && text::contains_seq(#[trigger] chunks[j], para);
        assert(all[j] == chunks[j]);
    } else {
        let hs = hard_split_spec(para);
        let j = choose|j: int|
            0 <= j && j + hs.len() <= chunks.len() && #[trigger] chunks.subrange(j, j + hs.len())
                == hs;
        assert(all.subrange(j, j + hs.len()) =~= chunks.subrange(j, j + hs.len()));
    }
}

/// A short paragraph within `c` is kept once `c` is added as a chunk.
proof fn lemma_kept_push(chunks: Seq<Seq<char>>, c: Seq<char>, para: Seq<char>)
    requires
        para.len() <= CHUNK_SIZE_CHARS,
        text::contains_seq(c, para),
    ensures
        paragraph_kept(chunks.push(c), para),
{
    assert(chunks.push(c)[chunks.len() as int] == c);
}

/// One step keeps what was already kept.
proof fn lemma_step_keeps(state: (Seq<Seq<char>>, Seq<char>), para: Seq<char>, q: Seq<char>)
    requires
        para.len() > 0,
        q.len() > 0,
        kept_in_state(state, q),
    ensures
        kept_in_state(step(state, para), q),
{
    let chunks = state.0;
    let cur = state.1;
    let flush = cur.len() + para.len() > CHUNK_SIZE_CHARS && cur.len() > 0;
    let chunks1 = if flush {
        chunks.push(cur)
    } else {
        chunks
    };
    let cur1 = if flush {
        carry_over_spec(cur)
    } else {
        cur
    };
    let next = step(state, para);
    // What is kept by `chunks1` or within `cur1`.
    assert(kept_in_state((chunks1, cur1), q)) by {
        if flush {
            assert(chunks1 == chunks + seq![cur]);
            if paragraph_kept(chunks, q) {
                lemma_kept_extend(chunks, seq![cur], q);
            } else {
                lemma_kept_push(chunks, cur, q);
            }
        }
    }
    if para.len() > CHUNK_SIZE_CHARS {
        let chunks2 = if cur1.len() > 0 {
            chunks1.push(cur1)
        } else {
            chunks1
        };
        assert(kept_in_state((chunks2, Seq::empty()), q)) by {
            if cur1.len() > 0 {
                assert(chunks2 == chunks1 + seq![cur1]);
                if paragraph_kept(chunks1, q) {
                    lemma_kept_extend(chunks1, seq![cur1], q);
                } else {
                    lemma_kept_push(chunks1, cur1, q);
                }
            } else if !paragraph_kept(chunks1, q) {
                assert(text::contains_seq(cur1, q));
                assert(false);
            }
        }
        let hs = hard_split_spec(para);
        assert(next.0 == chunks2 + hs);
        if paragraph_kept(chunks2, q) {
            lemma_kept_extend(chunks2, hs, q);
        } else {
            assert(text::contains_seq(Seq::<char>::empty(), q));
            assert(false);
        }
    } else if cur1.len() > 0 {
        let sep = seq!['\n', '\n'];
        assert(next.1 == cur1 + sep + para);
        lemma_contains_concat(cur1, sep, q);
        lemma_contains_concat(cur1 + sep, para, q);
    } else {
        assert(next.1 == para);
        if !paragraph_kept(chunks1, q) {
            assert(text::contains_seq(cur1, q));
            assert(false);
        }
    }
}

/// Folding non-empty paragraphs keeps each of them, in the chunks or in the
/// chunk being built.
proof fn lemma_fold_keeps(paras: Seq<Seq<char>>)
    requires
        forall|i: int| 0 <= i < paras.len() ==> (#[trigger] paras[i]).len() > 0,
    ensures
        forall|i: int|
            0 <= i < paras.len() ==> kept_in_state(fold_paragraphs(paras), #[trigger] paras[i]),
    decreases paras.len(),
{
    if paras.len() > 0 {
        let prev = paras.drop_last();
        assert forall|i: int| 0 <= i < prev.len() implies (#[trigger] prev[i]).len() > 0 by {
            assert(prev[i] == paras[i]);
        }
        lemma_fold_keeps(prev);
        let para = paras.last();
        assert(para == paras[paras.len() - 1]);
        let st = fold_paragraphs(prev);
        assert forall|i: int| 0 <= i < paras.len() implies kept_in_state(
            fold_paragraphs(paras),
            #[trigger] paras[i],
        ) by {
            if i < prev.len() {
                assert(paras[i] == prev[i]);
                lemma_step_keeps(st, para, prev[i]);
            } else {
                lemma_step_keeps_new(st, para);
            }
        }
    }
}

/// One step keeps the paragraph it takes.
proof fn lemma_step_keeps_new(state: (Seq<Seq<char>>, Seq<char>), para: Seq<char>)
    requires
        para.len() > 0,
    ensures
        kept_in_state(step(state, para), para),
{
    let chunks = state.0;
    let cur = state.1;
    let flush = cur.len() + para.len() > CHUNK_SIZE_CHARS && cur.len() > 0;
    let chunks1 = if flush {
        chunks.push(cur)
    } else {
        chunks
    };
    let cur1 = if flush {
        carry_over_spec(cur)
    } else {
        cur
    };
    let next = step(state, para);
    if para.len() > CHUNK_SIZE_CHARS {
        let chunks2 = if cur1.len() > 0 {
            chunks1.push(cur1)
        } else {
            chunks1
        };
        let hs = hard_split_spec(para);
        assert(next.0 == chunks2 + hs);
        assert(next.0.subrange(chunks2.len() as int, (chunks2.len() + hs.len()) as int) =~= hs);
    } else if cur1.len() > 0 {
        let sep = seq!['\n', '\n'];
        assert(next.1 == cur1 + sep + para);
        lemma_contains_self(para);
        lemma_contains_concat(cur1 + sep, para, para);
    } else {
        assert(next.1 == para);
        lemma_contains_self(para);
    }
}

/// Every paragraph starts with a non-whitespace character.
proof fn lemma_paragraph_first_char(pieces: Seq<Seq<char>>)
    ensures
        forall|i: int|
            0 <= i < trimmed_nonempty(pieces).len() ==> {
                &&& (#[trigger] trimmed_nonempty(pieces)[i]).len() > 0
                &&& !text::char_is_whitespace(trimmed_nonempty(pieces)[i][0])
            },
    decreases pieces.len(),
{
    if pieces.len() > 0 {
        lemma_paragraph_first_char(pieces.drop_last());
        let rest = trimmed_nonempty(pieces.drop_last());
        let t = text::trim(pieces.last());
        let ab = text::lemma_trim_is_subrange(pieces.last());
        if t.len() > 0 {
            assert(t[0] == pieces.last()[ab.0]);
            assert forall|i: int| 0 <= i < rest.push(t).len() implies {
                &&& (#[trigger] rest.push(t)[i]).len() > 0
                &&& !text::char_is_whitespace(rest.push(t)[i][0])
            } by {
                if i < rest.len() {
                    assert(rest.push(t)[i] == rest[i]);
                }
            }
        }
    }
}

/// Nothing of a text is lost by `chunk_text`: every paragraph of at most
/// `CHUNK_SIZE_CHARS` characters occurs whole within some chunk, and the
/// windows of the hard split of a longer paragraph come as consecutive
/// chunks, in order.
pub proof fn lemma_paragraphs_kept(t: Seq<char>)
    ensures
        forall|i: int|
            0 <= i < paragraphs(t).len() ==> paragraph_kept(
                spec_chunk_text(t),
                #[trigger] paragraphs(t)[i],
            ),
{
    let paras = paragraphs(t);
    lemma_paragraph_first_char(split_on_blank_lines(t));
    lemma_fold_keeps(paras);
    let folded = fold_paragraphs(paras);
    let pushed = text::trim(folded.1).len() > 0;
    let chunks = if pushed {
        folded.0.push(folded.1)
    } else {
        folded.0
    };
    assert forall|i: int| 0 <= i < paras.len() implies paragraph_kept(
        chunks,
        #[trigger] paras[i],
    ) by {
        let q = paras[i];
        assert(kept_in_state(folded, q));
        if paragraph_kept(folded.0, q) {
            if pushed {
                assert(chunks == folded.0 + seq![folded.1]);
                lemma_kept_extend(folded.0, seq![folded.1], q);
            }
        } else {
            assert(text::contains_seq(folded.1, q));
            let k = choose|k: int|
                0 <= k && k + q.len() <= folded.1.len() && #[trigger] folded.1.subrange(
                    k,
                    k + q.len(),
                ) == q;
            assert(folded.1[k] == q[0]);
            text::lemma_trim_empty_iff(folded.1);
            assert(pushed);
            lemma_kept_push(folded.0, folded.1, q);
        }
    }
    if paras.len() > 0 {
        let q = paras[0];
        assert(paragraph_kept(chunks, q));
        lemma_hard_split_windows(q);
        if q.len() > CHUNK_SIZE_CHARS {
            let hs = hard_split_spec(q);
            let j = choose|j: int|
                0 <= j && j + hs.len() <= chunks.len() && #[trigger] chunks.subrange(
                    j,
                    j + hs.len(),
                ) == hs;
            assert(hs.len() > 0);
        }
        assert(chunks.len() > 0);
        assert(spec_chunk_text(t) == chunks);
    }
}

/// The paragraphs joined by blank lines.
pub open spec fn join_paragraphs(paras: Seq<Seq<char>>) -> Seq<char>
    decreases paras.len(),
{
    if paras.len() == 0 {
        Seq::empty()
    } else if paras.len() == 1 {
        paras[0]
    } else {
        join_paragraphs(paras.drop_last()) + seq!['\n', '\n'] + paras.last()
    }
}

/// Folding paragraphs whose join fits in one chunk builds exactly that join,
/// closing no chunk.
proof fn lemma_fold_fits(paras: Seq<Seq<char>>)
    requires
        forall|i: int| 0 <= i < paras.len() ==> (#[trigger] paras[i]).len() > 0,
        join_paragraphs(paras).len() <= CHUNK_SIZE_CHARS,
    ensures
        fold_paragraphs(paras).0.len() == 0,
        fold_paragraphs(paras).1 == join_paragraphs(paras),
        paras.len() > 0 ==> join_paragraphs(paras).len() > 0 && join_paragraphs(paras)[0]
            == paras[0][0],
    decreases paras.len(),
{
    if paras.len() > 0 {
        let prev = paras.drop_last();
        let last = paras.last();
        assert(last == paras[paras.len() - 1]);
        assert forall|i: int| 0 <= i < prev.len() implies (#[trigger] prev[i]).len() > 0 by {
            assert(prev[i] == paras[i]);
        }
        if prev.len() > 0 {
            assert(join_paragraphs(paras) == join_paragraphs(prev) + seq!['\n', '\n'] + last);
            lemma_fold_fits(prev);
            assert(prev[0] == paras[0]);
            assert(join_paragraphs(paras)[0] == join_paragraphs(prev)[0]);
        } else {
            assert(join_paragraphs(paras) == last);
            assert(fold_paragraphs(prev) == (Seq::<Seq<char>>::empty(), Seq::<char>::empty()));
        }
    }
}

/// A text whose paragraphs, joined by blank lines, fit within
/// `CHUNK_SIZE_CHARS` characters gives exactly one chunk: that join.
pub proof fn lemma_small_text_is_one_chunk(t: Seq<char>)
    requires
        paragraphs(t).len() > 0,
        join_paragraphs(paragraphs(t)).len() <= CHUNK_SIZE_CHARS,
    ensures
        spec_chunk_text(t) == seq![join_paragraphs(paragraphs(t))],
{
    let paras = paragraphs(t);
    lemma_paragraph_first_char(split_on_blank_lines(t));
    lemma_fold_fits(paras);
    let j = join_paragraphs(paras);
    assert(!text::char_is_whitespace(j[0]));
    text::lemma_trim_empty_iff(j);
    assert(Seq::<Seq<char>>::empty().push(j) =~= seq![j]);
}

} // verus!
