//! The vector store's text-level rules: the table that holds the chunks, the
//! filter that selects a file's chunks for deletion, and the reading of
//! search results.
use vstd::prelude::*;
use crate::commands::ChunkEntry;
use crate::text;
use crate::text::{append_str, chars_of, contains_string, owned, string_from_chars};

verus! {

/// The name of the table that holds the document chunks.
pub open spec fn table_name() -> Seq<char> {
    "documents"@
}

/// Whether the database has the documents table.
pub fn has_documents_table(names: &Vec<String>) -> (r: bool)
    ensures
        r == text::strings(names@).contains(table_name()),
{
    contains_string(names, &owned("documents"))
}

/// A character as it stands inside a single-quoted SQL literal: a quote is
/// doubled, anything else is itself.
pub open spec fn escape_char(c: char) -> Seq<char> {
    if c == '\'' {
        seq!['\'', '\'']
    } else {
        seq![c]
    }
}

/// A text as it stands inside a single-quoted SQL literal.
pub open spec fn escape_quotes(s: Seq<char>) -> Seq<char>
    decreases s.len(),
{
    if s.len() == 0 {
        Seq::empty()
    } else {
        escape_char(s[0]) + escape_quotes(s.drop_first())
    }
}

/// The text that a single-quoted SQL literal's content stands for: a doubled
/// quote reads as one quote.
pub open spec fn unescape_quotes(t: Seq<char>) -> Seq<char>
    decreases t.len(),
{
    if t.len() == 0 {
        Seq::empty()
    } else if t.len() >= 2 && t[0] == '\'' && t[1] == '\'' {
        seq!['\''] + unescape_quotes(t.skip(2))
    } else {
        seq![t[0]] + unescape_quotes(t.drop_first())
    }
}

/// Whether every quote in `t` is one of a doubled pair, so that the literal
/// cannot end early.
pub open spec fn quotes_paired(t: Seq<char>) -> bool
    decreases t.len(),
{
    if t.len() == 0 {
        true
    } else if t[0] == '\'' {
        t.len() >= 2 && t[1] == '\'' && quotes_paired(t.skip(2))
    } else {
        quotes_paired(t.drop_first())
    }
}

/// The filter selecting the chunks of one file: `file_name = '<name>'`, with
/// the name's quotes doubled.
pub open spec fn spec_file_name_filter(name: Seq<char>) -> Seq<char> {
    "file_name = '"@ + escape_quotes(name) + "'"@
}

/// Escaping `a + b` escapes `a`, then `b`.
proof fn lemma_escape_concat(a: Seq<char>, b: Seq<char>)
    ensures
        escape_quotes(a + b) == escape_quotes(a) + escape_quotes(b),
    decreases a.len(),
{
    if a.len() == 0 {
        assert(a + b =~= b);
        assert(escape_quotes(a) + escape_quotes(b) =~= escape_quotes(b));
    } else {
        assert((a + b).drop_first() =~= a.drop_first() + b);
        assert((a + b)[0] == a[0]);
        lemma_escape_concat(a.drop_first(), b);
        assert(escape_char(a[0]) + (escape_quotes(a.drop_first()) + escape_quotes(b))
            =~= (escape_char(a[0]) + escape_quotes(a.drop_first())) + escape_quotes(b));
    }
}

/// The filter selecting the chunks of the file `file_name` (see
/// [`spec_file_name_filter`]).
pub fn file_name_filter(file_name: &str) -> (r: String)
    ensures
        r@ == spec_file_name_filter(file_name@),
{
    let cs = chars_of(file_name);
    let mut out: Vec<char> = Vec::new();
    let mut i: usize = 0;
    proof {
        assert(cs@.take(0) =~= Seq::<char>::empty());
        assert(out@ =~= escape_quotes(Seq::<char>::empty()));
    }
    while i < cs.len()
        invariant
            i <= cs.len(),
            out@ == escape_quotes(cs@.take(i as int)),
        decreases cs.len() - i,
    {
        let c = cs[i];
        if c == '\'' {
            out.push('\'');
            out.push('\'');
        } else {
            out.push(c);
        }
        proof {
            assert(cs@.take(i + 1) =~= cs@.take(i as int) + seq![c]);
            lemma_escape_concat(cs@.take(i as int), seq![c]);
            assert(seq![c].drop_first() =~= Seq::<char>::empty());
            assert(seq![c][0] == c);
            assert(escape_quotes(Seq::<char>::empty()) == Seq::<char>::empty());
            assert(escape_quotes(seq![c]) == escape_char(c) + escape_quotes(Seq::<char>::empty()));
            assert(escape_quotes(seq![c]) =~= escape_char(c));
            assert(out@ =~= escape_quotes(cs@.take(i as int)) + escape_char(c));
        }
        i = i + 1;
    }
    proof {
        assert(cs@.take(cs.len() as int) =~= cs@);
    }
    let mut r = owned("file_name = '");
    append_str(&mut r, string_from_chars(&out).as_str());
    append_str(&mut r, "'");
    r
}

/// A file name placed in the filter reads back as itself, and none of its
/// quotes can end the literal early.
pub proof fn lemma_filter_escaping(name: Seq<char>)
    ensures
        unescape_quotes(escape_quotes(name)) == name,
        quotes_paired(escape_quotes(name)),
    decreases name.len(),
{
    if name.len() > 0 {
        lemma_filter_escaping(name.drop_first());
        let rest = escape_quotes(name.drop_first());
        let e = escape_quotes(name);
        assert(e == escape_char(name[0]) + rest);
        if name[0] == '\'' {
            assert(e.skip(2) =~= rest);
        } else {
            assert(e.drop_first() =~= rest);
        }
        assert(seq![name[0]] + name.drop_first() =~= name);
    }
}

/// A column that a batch of search results lacks.
#[derive(PartialEq, Eq, Structural, Debug, Clone, Copy)]
pub enum MissingColumn {
    /// The `id` column.
    Id,
    /// The `file_name` column.
    FileName,
    /// The `chunk_index` column.
    ChunkIndex,
    /// The `chunk_text` column.
    ChunkText,
}

/// The name of a column in the documents table.
pub open spec fn spec_column_name(c: MissingColumn) -> Seq<char> {
    match c {
        MissingColumn::Id => "id"@,
        MissingColumn::FileName => "file_name"@,
        MissingColumn::ChunkIndex => "chunk_index"@,
        MissingColumn::ChunkText => "chunk_text"@,
    }
}

impl MissingColumn {
    /// The name of the missing column.
    pub fn column_name(&self) -> (r: String)
        ensures
            r@ == spec_column_name(*self),
    {
        match self {
            MissingColumn::Id => owned("id"),
            MissingColumn::FileName => owned("file_name"),
            MissingColumn::ChunkIndex => owned("chunk_index"),
            MissingColumn::ChunkText => owned("chunk_text"),
        }
    }
}

/// The columns of one batch of search results, each `None` where the batch
/// lacks it (or holds it with another type).
pub struct ResultColumns {
    /// The `id` column.
    pub ids: Option<Vec<String>>,
    /// The `file_name` column.
    pub file_names: Option<Vec<String>>,
    /// The `chunk_index` column.
    pub chunk_indices: Option<Vec<i32>>,
    /// The `chunk_text` column.
    pub chunk_texts: Option<Vec<String>>,
}

/// The first column, in the order `id`, `file_name`, `chunk_index`,
/// `chunk_text`, that a batch lacks.
pub open spec fn first_missing(cols: ResultColumns) -> Option<MissingColumn> {
    if cols.ids is None {
        Some(MissingColumn::Id)
    } else if cols.file_names is None {
        Some(MissingColumn::FileName)
    } else if cols.chunk_indices is None {
        Some(MissingColumn::ChunkIndex)
    } else if cols.chunk_texts is None {
        Some(MissingColumn::ChunkText)
    } else {
        None
    }
}

/// The rows of a batch of search results: the first missing column is an
/// error; otherwise row `i` is made of the `i`-th value of each column.
pub fn result_rows(cols: &ResultColumns) -> (r: Result<Vec<ChunkEntry>, MissingColumn>)
    requires
        first_missing(*cols) is None ==> {
            &&& cols.file_names->0@.len() == cols.ids->0@.len()
            &&& cols.chunk_indices->0@.len() == cols.ids->0@.len()
            &&& cols.chunk_texts->0@.len() == cols.ids->0@.len()
        },
    ensures
        match first_missing(*cols) {
            Some(c) => r == Err::<Vec<ChunkEntry>, MissingColumn>(c),
            None => r is Ok && {
                let rows = r->Ok_0@;
                let ids = cols.ids->0@;
                &&& rows.len() == ids.len()
                &&& forall|i: int|
                    0 <= i < rows.len() ==> {
                        &&& (#[trigger] rows[i]).id@ == ids[i]@
                        &&& rows[i].file_name@ == cols.file_names->0@[i]@
                        &&& rows[i].chunk_index == cols.chunk_indices->0@[i]
                        &&& rows[i].chunk_text@ == cols.chunk_texts->0@[i]@
                    }
            },
        },
{
    let ids = match &cols.ids {
        Some(v) => v,
        None => return Err(MissingColumn::Id),
    };
    let file_names = match &cols.file_names {
        Some(v) => v,
        None => return Err(MissingColumn::FileName),
    };
    let chunk_indices = match &cols.chunk_indices {
        Some(v) => v,
        None => return Err(MissingColumn::ChunkIndex),
    };
    let chunk_texts = match &cols.chunk_texts {
        Some(v) => v,
        None => return Err(MissingColumn::ChunkText),
    };
    let n = ids.len();
    let mut rows: Vec<ChunkEntry> = Vec::new();
    let mut i: usize = 0;
    while i < n
        invariant
            n == ids@.len(),
            file_names@.len() == n,
            chunk_indices@.len() == n,
            chunk_texts@.len() == n,
            i <= n,
            rows@.len() == i,
            forall|k: int|
                0 <= k < i ==> {
                    &&& (#[trigger] rows@[k]).id@ == ids@[k]@
                    &&& rows@[k].file_name@ == file_names@[k]@
                    &&& rows@[k].chunk_index == chunk_indices@[k]
                    &&& rows@[k].chunk_text@ == chunk_texts@[k]@
                },
        decreases n - i,
    {
        rows.push(
            ChunkEntry {
                id: owned(ids[i].as_str()),
                file_name: owned(file_names[i].as_str()),
                chunk_index: chunk_indices[i],
                chunk_text: owned(chunk_texts[i].as_str()),
            },
        );
        i = i + 1;
    }
    Ok(rows)
}

} // verus!
