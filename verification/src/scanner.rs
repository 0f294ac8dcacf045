//! The managed layout of the user's chosen source folder:
//!
//! ```text
//! <source>/
//!   *.txt, *.md   new files waiting to be vectorized
//!   archive/       files currently vectorized (the "indexed" column)
//!   delete/        files removed from the index through the app (the
//!                  "deleted" column); files land here only through the
//!                  delete button and leave only through the restore button
//! ```
//!
//! Paths are Unix paths held as text. The caller reads the file system into a
//! [`SourceFolderSnapshot`]; the listing and naming decisions are made here.
use vstd::prelude::*;
use crate::text;
use crate::text::{chars_of, contains_string, eq_chars, find_last, owned, string_from_chars, to_lowercase};

verus! {

/// `name` joined onto `base` as `PathBuf::push` does on Unix: an absolute
/// `name` replaces `base`; otherwise a `/` is put between them unless `base` is
/// empty or already ends with one.
pub open spec fn spec_join(base: Seq<char>, name: Seq<char>) -> Seq<char> {
    if name.len() > 0 && name[0] == '/' {
        name
    } else if base.len() > 0 && base.last() != '/' {
        base + seq!['/'] + name
    } else {
        base + name
    }
}

/// The characters of `a` followed by those of `b`, as a vector.
fn chars_concat(a: &Vec<char>, b: &Vec<char>) -> (r: Vec<char>)
    ensures
        r@ == a@ + b@,
{
    let mut r = text::copy_range(a, 0, a.len());
    proof {
        assert(a@.subrange(0, a.len() as int) =~= a@);
    }
    text::append_all(&mut r, b);
    r
}

/// Joins `name` onto the path `base` (see [`spec_join`]).
pub fn join_path(base: &str, name: &str) -> (r: String)
    ensures
        r@ == spec_join(base@, name@),
{
    let b = chars_of(base);
    let n = chars_of(name);
    if n.len() > 0 && n[0] == '/' {
        string_from_chars(&n)
    } else if b.len() > 0 && b[b.len() - 1] != '/' {
        let mut r = text::copy_range(&b, 0, b.len());
        proof {
            assert(b@.subrange(0, b.len() as int) =~= b@);
        }
        r.push('/');
        text::append_all(&mut r, &n);
        string_from_chars(&r)
    } else {
        string_from_chars(&chars_concat(&b, &n))
    }
}

/// The archive subfolder's name as characters.
pub open spec fn archive_name() -> Seq<char> {
    seq!['a', 'r', 'c', 'h', 'i', 'v', 'e']
}

/// The delete subfolder's name as characters.
pub open spec fn delete_name() -> Seq<char> {
    seq!['d', 'e', 'l', 'e', 't', 'e']
}

/// The folder that holds the vectorized files of `source`.
pub fn archive_dir(source: &str) -> (r: String)
    ensures
        r@ == spec_join(source@, archive_name()),
{
    proof {
        reveal_strlit("archive");
        assert("archive"@ =~= archive_name());
    }
    join_path(source, "archive")
}

/// The folder that holds the files of `source` removed from the index.
pub fn delete_dir(source: &str) -> (r: String)
    ensures
        r@ == spec_join(source@, delete_name()),
{
    proof {
        reveal_strlit("delete");
        assert("delete"@ =~= delete_name());
    }
    join_path(source, "delete")
}

/// Whether a file name is `..`.
pub open spec fn is_dot_dot(name: Seq<char>) -> bool {
    name == seq!['.', '.']
}

/// The extension of a file name, as `Path::extension` finds it: the part after
/// the last `.`, unless there is no `.`, the only one leads the name (a hidden
/// file such as `.bashrc`), or the name is `..`.
pub open spec fn spec_extension(name: Seq<char>) -> Option<Seq<char>> {
    let d = text::last_index_of(name, '.');
    if is_dot_dot(name) || d <= 0 {
        None
    } else {
        Some(name.subrange(d + 1, name.len() as int))
    }
}

/// The stem of a file name, as `Path::file_stem` finds it: the part before the
/// last `.`, or the whole name where there is no extension.
pub open spec fn spec_file_stem(name: Seq<char>) -> Seq<char> {
    let d = text::last_index_of(name, '.');
    if is_dot_dot(name) || d <= 0 {
        name
    } else {
        name.subrange(0, d)
    }
}

/// The extensions of the text files that the app indexes, in lowercase.
pub open spec fn is_text_extension(lower: Seq<char>) -> bool {
    lower == seq!['t', 'x', 't'] || lower == seq!['m', 'd']
}

/// Whether a file name names a text file: its extension, lowercased, is `txt` or `md`.
pub open spec fn spec_is_text_file(name: Seq<char>) -> bool {
    match spec_extension(name) {
        Some(ext) => is_text_extension(text::lowercase(ext)),
        None => false,
    }
}

/// Exactly the files whose extension, lowercased, is `txt` or `md` are text
/// files; a name without an extension never is.
pub proof fn lemma_text_file_extensions(name: Seq<char>)
    ensures
        spec_is_text_file(name) <==> (spec_extension(name) is Some && (text::lowercase(
            spec_extension(name)->0,
        ) == seq!['t', 'x', 't'] || text::lowercase(spec_extension(name)->0) == seq!['m', 'd'])),
{
}

/// Whether `v` is exactly `..`.
fn is_dot_dot_chars(v: &Vec<char>) -> (r: bool)
    ensures
        r == is_dot_dot(v@),
{
    let dd = vec!['.', '.'];
    proof {
        assert(dd@ =~= seq!['.', '.']);
    }
    eq_chars(v, &dd)
}

/// The position of the dot that starts the extension of `name`, if it has one.
fn extension_dot(name: &Vec<char>) -> (r: Option<usize>)
    ensures
        match r {
            Some(d) => {
                &&& spec_extension(name@) == Some(name@.subrange(d + 1, name@.len() as int))
                &&& spec_file_stem(name@) == name@.subrange(0, d as int)
                &&& 0 < d < name@.len()
            },
            None => spec_extension(name@) is None && spec_file_stem(name@) == name@,
        },
{
    proof {
        text::lemma_last_index_of(name@, '.');
    }
    if is_dot_dot_chars(name) {
        return None;
    }
    match find_last(name, '.') {
        Some(d) => {
            if d == 0 {
                None
            } else {
                Some(d)
            }
        },
        None => None,
    }
}

/// The extension of the file name `name`, if it has one.
pub fn file_extension(name: &str) -> (r: Option<String>)
    ensures
        match r {
            Some(e) => spec_extension(name@) == Some(e@),
            None => spec_extension(name@) is None,
        },
{
    let v = chars_of(name);
    match extension_dot(&v) {
        Some(d) => {
            assert(d < v.len());
            Some(string_from_chars(&text::copy_range(&v, d + 1, v.len())))
        },
        None => None,
    }
}

/// The stem of the file name `name`.
pub fn file_stem(name: &str) -> (r: String)
    ensures
        r@ == spec_file_stem(name@),
{
    let v = chars_of(name);
    match extension_dot(&v) {
        Some(d) => string_from_chars(&text::copy_range(&v, 0, d)),
        None => string_from_chars(&v),
    }
}

/// Whether the file name `name` names a text file (`.txt` or `.md`, in any case).
pub fn is_text_file(name: &str) -> (r: bool)
    ensures
        r == spec_is_text_file(name@),
{
    match file_extension(name) {
        Some(ext) => is_text_extension_lower(to_lowercase(ext.as_str()).as_str()),
        None => false,
    }
}

/// Whether an already lowercased extension is that of a text file: `txt` or `md`.
pub fn is_text_extension_lower(lower: &str) -> (r: bool)
    ensures
        r == is_text_extension(lower@),
{
    let l = chars_of(lower);
    let txt = vec!['t', 'x', 't'];
    let md = vec!['m', 'd'];
    proof {
        assert(txt@ =~= seq!['t', 'x', 't']);
        assert(md@ =~= seq!['m', 'd']);
    }
    eq_chars(&l, &txt) || eq_chars(&l, &md)
}

/// The name under which a file goes when its own name is taken at the
/// destination: the stem, `-`, the timestamp, then the extension, if any,
/// after a `.`.
pub open spec fn spec_disambiguated_name(name: Seq<char>, timestamp: Seq<char>) -> Seq<char> {
    let base = spec_file_stem(name) + seq!['-'] + timestamp;
    match spec_extension(name) {
        Some(ext) => base + seq!['.'] + ext,
        None => base,
    }
}

/// The name `name` made distinct with `timestamp` (see [`spec_disambiguated_name`]).
pub fn disambiguated_name(name: &str, timestamp: &str) -> (r: String)
    ensures
        r@ == spec_disambiguated_name(name@, timestamp@),
{
    let v = chars_of(name);
    let ts = chars_of(timestamp);
    match extension_dot(&v) {
        Some(d) => {
            let mut r = text::copy_range(&v, 0, d);
            r.push('-');
            text::append_all(&mut r, &ts);
            r.push('.');
            let ext = text::copy_range(&v, d + 1, v.len());
            text::append_all(&mut r, &ext);
            string_from_chars(&r)
        },
        None => {
            let mut r = text::copy_range(&v, 0, v.len());
            proof {
                assert(v@.subrange(0, v.len() as int) =~= v@);
            }
            r.push('-');
            text::append_all(&mut r, &ts);
            string_from_chars(&r)
        },
    }
}

/// A local date and time, as read from the clock: the fields of the
/// timestamp that makes a moved file's name distinct.
pub struct LocalDateTime {
    /// The year, possibly before 1 or after 9999.
    pub year: i32,
    /// The month, from 1.
    pub month: u32,
    /// The day of the month, from 1.
    pub day: u32,
    /// The hour, from 0.
    pub hour: u32,
    /// The minute, from 0.
    pub minute: u32,
    /// The second, from 0 (60 for a leap second).
    pub second: u32,
}

/// `n` in decimal, with zeros in front up to `width` characters.
pub open spec fn zero_padded(n: nat, width: nat) -> Seq<char> {
    let d = text::decimal(n);
    if d.len() >= width {
        d
    } else {
        Seq::new((width - d.len()) as nat, |i: int| '0') + d
    }
}

/// A year as `%Y` writes it: four digits, zero-padded, for years 0 to 9999;
/// otherwise a sign, then at least four digits.
pub open spec fn year_text(year: int) -> Seq<char> {
    if 0 <= year <= 9999 {
        zero_padded(year as nat, 4)
    } else if year < 0 {
        seq!['-'] + zero_padded((-year) as nat, 4)
    } else {
        seq!['+'] + zero_padded(year as nat, 4)
    }
}

/// The timestamp of a date and time, in the form `%Y%m%d-%H%M%S`: the year,
/// then month, day, `-`, hour, minute and second, two digits each.
pub open spec fn spec_timestamp(t: LocalDateTime) -> Seq<char> {
    year_text(t.year as int) + zero_padded(t.month as nat, 2) + zero_padded(t.day as nat, 2)
        + seq!['-'] + zero_padded(t.hour as nat, 2) + zero_padded(t.minute as nat, 2)
        + zero_padded(t.second as nat, 2)
}

/// Appends `n` in decimal, zero-padded to `width` characters.
fn push_padded(out: &mut Vec<char>, n: u64, width: usize)
    ensures
        final(out)@ == old(out)@ + zero_padded(n as nat, width as nat),
{
    let mut d: Vec<char> = Vec::new();
    text::push_decimal(&mut d, n);
    proof {
        assert(d@ =~= text::decimal(n as nat));
    }
    let mut k: usize = d.len();
    while k < width
        invariant
            d@.len() <= k <= width || (k == d@.len() && k >= width),
            out@ == old(out)@ + Seq::new((k - d@.len()) as nat, |i: int| '0'),
        decreases width - k,
    {
        out.push('0');
        k = k + 1;
        assert(out@ =~= old(out)@ + Seq::new((k - d@.len()) as nat, |i: int| '0'));
    }
    let ghost zs = Seq::new((k - d@.len()) as nat, |i: int| '0');
    text::append_all(out, &d);
    proof {
        if d@.len() >= width {
            assert(zs =~= Seq::<char>::empty());
            assert(old(out)@ + zs + d@ =~= old(out)@ + d@);
        } else {
            assert(k == width);
            assert(old(out)@ + zs + d@ =~= old(out)@ + (zs + d@));
        }
    }
}

/// The timestamp of `t` (see [`spec_timestamp`]).
pub fn timestamp_text(t: &LocalDateTime) -> (r: String)
    ensures
        r@ == spec_timestamp(*t),
{
    let mut v: Vec<char> = Vec::new();
    let y = t.year as i64;
    if 0 <= y && y <= 9999 {
        push_padded(&mut v, y as u64, 4);
    } else if y < 0 {
        v.push('-');
        push_padded(&mut v, (-y) as u64, 4);
    } else {
        v.push('+');
        push_padded(&mut v, y as u64, 4);
    }
    proof {
        assert(v@ =~= year_text(t.year as int));
    }
    push_padded(&mut v, t.month as u64, 2);
    push_padded(&mut v, t.day as u64, 2);
    v.push('-');
    push_padded(&mut v, t.hour as u64, 2);
    push_padded(&mut v, t.minute as u64, 2);
    push_padded(&mut v, t.second as u64, 2);
    proof {
        assert(v@ =~= spec_timestamp(*t));
    }
    string_from_chars(&v)
}

/// Whether `s` holds the character `c`.
pub open spec fn has_char(s: Seq<char>, c: char) -> bool {
    exists|i: int| 0 <= i < s.len() && s[i] == c
}

/// Decimal text is made of digits.
proof fn lemma_decimal_digits(n: nat)
    ensures
        forall|i: int| 0 <= i < text::decimal(n).len() ==> text::digit_chars().contains(#[trigger] text::decimal(n)[i]),
        text::decimal(n).len() > 0,
    decreases n,
{
    if n < 10 {
        assert(text::digit_chars()[n as int] == text::decimal(n)[0]);
    } else {
        lemma_decimal_digits(n / 10);
        let d = text::decimal(n);
        assert forall|i: int| 0 <= i < d.len() implies text::digit_chars().contains(#[trigger] d[i]) by {
            if i < d.len() - 1 {
                assert(d[i] == text::decimal(n / 10)[i]);
            } else {
                assert(d[i] == text::digit_chars()[(n % 10) as int]);
            }
        }
    }
}

/// Zero-padded decimal text is made of digits, and is not empty.
proof fn lemma_padded_digits(n: nat, width: nat)
    ensures
        forall|i: int|
            0 <= i < zero_padded(n, width).len() ==> text::digit_chars().contains(
                #[trigger] zero_padded(n, width)[i],
            ),
        zero_padded(n, width).len() > 0,
{
    lemma_decimal_digits(n);
    let d = text::decimal(n);
    let z = zero_padded(n, width);
    if d.len() < width {
        let zs = Seq::new((width - d.len()) as nat, |i: int| '0');
        assert forall|i: int| 0 <= i < z.len() implies text::digit_chars().contains(#[trigger] z[i]) by {
            if i < zs.len() {
                assert(z[i] == '0');
                assert(text::digit_chars()[0] == '0');
            } else {
                assert(z[i] == d[i - zs.len()]);
            }
        }
    }
}

/// A timestamp is not empty and holds no `.`, so a name made distinct with
/// it keeps its extension.
pub proof fn lemma_timestamp_has_no_dot(t: LocalDateTime)
    ensures
        spec_timestamp(t).len() > 0,
        !has_char(spec_timestamp(t), '.'),
{
    let y = t.year as int;
    let yp = if 0 <= y <= 9999 {
        zero_padded(y as nat, 4)
    } else if y < 0 {
        zero_padded((-y) as nat, 4)
    } else {
        zero_padded(y as nat, 4)
    };
    lemma_padded_digits(if 0 <= y { y as nat } else { (-y) as nat }, 4);
    lemma_padded_digits(t.month as nat, 2);
    lemma_padded_digits(t.day as nat, 2);
    lemma_padded_digits(t.hour as nat, 2);
    lemma_padded_digits(t.minute as nat, 2);
    lemma_padded_digits(t.second as nat, 2);
    let ts = spec_timestamp(t);
    assert(!text::digit_chars().contains('.')) by {
        if text::digit_chars().contains('.') {
            let k = choose|k: int| 0 <= k < text::digit_chars().len() && text::digit_chars()[k] == '.';
            assert(false);
        }
    }
    assert forall|i: int| 0 <= i < ts.len() implies ts[i] != '.' by {
        let a = year_text(y);
        let b = zero_padded(t.month as nat, 2);
        let c = zero_padded(t.day as nat, 2);
        let e = zero_padded(t.hour as nat, 2);
        let f = zero_padded(t.minute as nat, 2);
        let g = zero_padded(t.second as nat, 2);
        assert(ts =~= a + b + c + seq!['-'] + e + f + g);
        if i < a.len() {
            if !(0 <= y <= 9999) && i == 0 {
            } else if 0 <= y <= 9999 {
                assert(text::digit_chars().contains(a[i]));
            } else {
                assert(a[i] == yp[i - 1]);
                assert(text::digit_chars().contains(yp[i - 1]));
            }
        } else if i < a.len() + b.len() {
            assert(ts[i] == b[i - a.len()]);
            assert(text::digit_chars().contains(b[i - a.len()]));
        } else if i < a.len() + b.len() + c.len() {
            assert(ts[i] == c[i - a.len() - b.len()]);
            assert(text::digit_chars().contains(c[i - a.len() - b.len()]));
        } else if i == a.len() + b.len() + c.len() {
        } else if i < a.len() + b.len() + c.len() + 1 + e.len() {
            let k = i - (a.len() + b.len() + c.len() + 1);
            assert(ts[i] == e[k]);
            assert(text::digit_chars().contains(e[k]));
        } else if i < a.len() + b.len() + c.len() + 1 + e.len() + f.len() {
            let k = i - (a.len() + b.len() + c.len() + 1 + e.len());
            assert(ts[i] == f[k]);
            assert(text::digit_chars().contains(f[k]));
        } else {
            let k = i - (a.len() + b.len() + c.len() + 1 + e.len() + f.len());
            assert(ts[i] == g[k]);
            assert(text::digit_chars().contains(g[k]));
        }
    }
}

/// Where a file named `file_name` goes when moved into `dest_dir`, whose
/// entries are named `existing`: under its own name where that is free;
/// otherwise under its name made distinct with the timestamp of `now`,
/// where that is free; otherwise nowhere (`None`), as no file there may be
/// replaced.
pub fn move_destination(
    dest_dir: &str,
    file_name: &str,
    existing: &Vec<String>,
    now: &LocalDateTime,
) -> (r: Option<String>)
    ensures
        !text::strings(existing@).contains(file_name@) ==> r is Some && r->0@ == spec_join(
            dest_dir@,
            file_name@,
        ),
        text::strings(existing@).contains(file_name@) ==> {
            let other = spec_disambiguated_name(file_name@, spec_timestamp(*now));
            &&& text::strings(existing@).contains(other) ==> r is None
            &&& !text::strings(existing@).contains(other) ==> r is Some && r->0@ == spec_join(
                dest_dir@,
                other,
            )
        },
{
    let own = owned(file_name);
    if !contains_string(existing, &own) {
        return Some(join_path(dest_dir, file_name));
    }
    let ts = timestamp_text(now);
    let other = disambiguated_name(file_name, ts.as_str());
    if contains_string(existing, &other) {
        None
    } else {
        Some(join_path(dest_dir, other.as_str()))
    }
}

/// Making a name distinct keeps its extension, so a text file moved under a
/// distinct name is still listed as a text file. (The name `..` is left out:
/// it has no extension, while `..-<timestamp>` has one.)
pub proof fn lemma_disambiguated_keeps_extension(name: Seq<char>, timestamp: Seq<char>)
    requires
        !has_char(timestamp, '.'),
        !is_dot_dot(name),
    ensures
        spec_extension(spec_disambiguated_name(name, timestamp)) == spec_extension(name),
        spec_is_text_file(spec_disambiguated_name(name, timestamp)) == spec_is_text_file(name),
{
    let stem = spec_file_stem(name);
    let d = text::last_index_of(name, '.');
    text::lemma_last_index_of(name, '.');
    text::lemma_last_index_of(timestamp, '.');
    let dash_ts = seq!['-'] + timestamp;
    text::lemma_last_index_of(dash_ts, '.');
    assert forall|j: int| 0 <= j < dash_ts.len() implies dash_ts[j] != '.' by {
        if j > 0 {
            assert(dash_ts[j] == timestamp[j - 1]);
        }
    }
    assert(text::last_index_of(dash_ts, '.') == -1) by {
        if text::last_index_of(dash_ts, '.') >= 0 {
            assert(dash_ts[text::last_index_of(dash_ts, '.')] == '.');
        }
    }
    let base = stem + seq!['-'] + timestamp;
    assert(base =~= stem + dash_ts);
    text::lemma_last_index_of_concat(stem, dash_ts, '.');
    let new_name = spec_disambiguated_name(name, timestamp);
    if d > 0 {
        let ext = name.subrange(d + 1, name.len() as int);
        let dot_ext = seq!['.'] + ext;
        text::lemma_last_index_of(ext, '.');
        assert forall|j: int| 0 <= j < ext.len() implies ext[j] != '.' by {
            assert(ext[j] == name[d + 1 + j]);
        }
        assert(text::last_index_of(ext, '.') == -1) by {
            if text::last_index_of(ext, '.') >= 0 {
                assert(ext[text::last_index_of(ext, '.')] == '.');
            }
        }
        assert(dot_ext.drop_first() =~= ext);
        text::lemma_last_index_of_concat(seq!['.'], ext, '.');
        assert(text::last_index_of(seq!['.'], '.') == 0) by {
            assert(seq!['.'].last() == '.');
        }
        assert(seq!['.'] + ext =~= dot_ext);
        assert(new_name =~= base + dot_ext);
        text::lemma_last_index_of_concat(base, dot_ext, '.');
        let nd = base.len() as int;
        assert(text::last_index_of(new_name, '.') == nd);
        assert(!is_dot_dot(new_name)) by {
            if is_dot_dot(new_name) {
                assert(new_name.len() == 2);
            }
        }
        assert(new_name.subrange(nd + 1, new_name.len() as int) =~= ext);
    } else {
        assert(stem == name);
        assert(new_name == base);
        assert(text::last_index_of(new_name, '.') == d);
    }
}

/// A directory entry as read from the file system.
pub struct FileEntry {
    /// The entry's file name.
    pub name: String,
    /// Whether the entry is a regular file.
    pub is_file: bool,
    /// The file's size in bytes.
    pub size_bytes: u64,
    /// Last modification time in nanoseconds from the Unix epoch (negative
    /// before it); the epoch itself where the time could not be read.
    pub modified_nanos: i128,
}

/// What the caller read of a source folder: the entries directly in it, and
/// those of its `archive/` and `delete/` subfolders (`None` where the
/// subfolder does not exist).
pub struct SourceFolderSnapshot {
    /// Entries directly in the source folder.
    pub root: Vec<FileEntry>,
    /// Entries of `archive/`, if it exists.
    pub archive: Option<Vec<FileEntry>>,
    /// Entries of `delete/`, if it exists.
    pub deleted: Option<Vec<FileEntry>>,
}

/// Whether an entry is a text file to be listed.
pub open spec fn is_text_entry(e: FileEntry) -> bool {
    e.is_file && spec_is_text_file(e.name@)
}

/// The text-file entries, in their input order.
pub open spec fn text_entries(es: Seq<FileEntry>) -> Seq<FileEntry>
    decreases es.len(),
{
    if es.len() == 0 {
        Seq::empty()
    } else {
        let rest = text_entries(es.drop_last());
        if is_text_entry(es.last()) {
            rest.push(es.last())
        } else {
            rest
        }
    }
}

/// The position of the first entry in `s` modified before `m`, or `s.len()`.
pub open spec fn first_older(s: Seq<FileEntry>, m: i128) -> int
    decreases s.len(),
{
    if s.len() == 0 {
        0
    } else if s[0].modified_nanos < m {
        0
    } else {
        1 + first_older(s.drop_first(), m)
    }
}

/// The entries sorted newest first; entries modified at the same time keep
/// their input order (a stable sort).
pub open spec fn sort_by_recency(s: Seq<FileEntry>) -> Seq<FileEntry>
    decreases s.len(),
{
    if s.len() == 0 {
        Seq::empty()
    } else {
        let sorted = sort_by_recency(s.drop_last());
        sorted.insert(first_older(sorted, s.last().modified_nanos), s.last())
    }
}

/// The listing of a folder's text files: name and size, newest first.
pub open spec fn spec_listing(es: Seq<FileEntry>) -> Seq<(Seq<char>, u64)> {
    sort_by_recency(text_entries(es)).map_values(|e: FileEntry| (e.name@, e.size_bytes))
}

/// The names and sizes held by a listing.
pub open spec fn listing_view(v: Seq<(String, u64)>) -> Seq<(Seq<char>, u64)> {
    v.map_values(|p: (String, u64)| (p.0@, p.1))
}

/// A copy of an entry.
fn copy_entry(e: &FileEntry) -> (r: FileEntry)
    ensures
        r.name@ == e.name@,
        r.is_file == e.is_file,
        r.size_bytes == e.size_bytes,
        r.modified_nanos == e.modified_nanos,
{
    FileEntry {
        name: e.name.clone(),
        is_file: e.is_file,
        size_bytes: e.size_bytes,
        modified_nanos: e.modified_nanos,
    }
}

/// Whether two entries agree in name (by its characters), kind, size and time.
pub open spec fn same_entry(a: FileEntry, b: FileEntry) -> bool {
    a.name@ == b.name@ && a.is_file == b.is_file && a.size_bytes == b.size_bytes
        && a.modified_nanos == b.modified_nanos
}

/// Whether two entry sequences agree entry by entry.
pub open spec fn same_entries(a: Seq<FileEntry>, b: Seq<FileEntry>) -> bool {
    a.len() == b.len() && forall|i: int| 0 <= i < a.len() ==> same_entry(#[trigger] a[i], b[i])
}

/// The text-file entries of `es`, copied, in order.
fn select_text_entries(es: &Vec<FileEntry>) -> (r: Vec<FileEntry>)
    ensures
        same_entries(r@, text_entries(es@)),
{
    let mut r: Vec<FileEntry> = Vec::new();
    let mut i: usize = 0;
    while i < es.len()
        invariant
            i <= es.len(),
            same_entries(r@, text_entries(es@.take(i as int))),
        decreases es.len() - i,
    {
        proof {
            assert(es@.take(i + 1).drop_last() =~= es@.take(i as int));
            assert(es@.take(i + 1).last() == es@[i as int]);
        }
        let e = &es[i];
        if e.is_file && is_text_file(e.name.as_str()) {
            r.push(copy_entry(e));
        }
        i = i + 1;
    }
    proof {
        assert(es@.take(es.len() as int) =~= es@);
    }
    r
}

/// `first_older` is where the entries modified at or after `m` end, when
/// that prefix is known.
proof fn lemma_first_older_at(s: Seq<FileEntry>, m: i128, j: int)
    requires
        0 <= j <= s.len(),
        forall|k: int| 0 <= k < j ==> (#[trigger] s[k]).modified_nanos >= m,
        j < s.len() ==> s[j].modified_nanos < m,
    ensures
        first_older(s, m) == j,
    decreases j,
{
    if j > 0 {
        let t = s.drop_first();
        assert forall|k: int| 0 <= k < j - 1 implies (#[trigger] t[k]).modified_nanos >= m by {
            assert(t[k] == s[k + 1]);
        }
        if j < s.len() {
            assert(t[j - 1] == s[j]);
        }
        assert(s[0].modified_nanos >= m);
        lemma_first_older_at(t, m, j - 1);
    }
}

/// `first_older` is a position within the sequence.
proof fn lemma_first_older_bounds(s: Seq<FileEntry>, m: i128)
    ensures
        0 <= first_older(s, m) <= s.len(),
    decreases s.len(),
{
    if s.len() > 0 {
        lemma_first_older_bounds(s.drop_first(), m);
    }
}

/// Sorting entries that agree pairwise gives entries that agree pairwise.
proof fn lemma_sort_respects_same(a: Seq<FileEntry>, b: Seq<FileEntry>)
    requires
        same_entries(a, b),
    ensures
        same_entries(sort_by_recency(a), sort_by_recency(b)),
    decreases a.len(),
{
    if a.len() > 0 {
        assert forall|i: int| 0 <= i < a.drop_last().len() implies same_entry(
            #[trigger] a.drop_last()[i],
            b.drop_last()[i],
        ) by {
            assert(a.drop_last()[i] == a[i]);
            assert(b.drop_last()[i] == b[i]);
        }
        lemma_sort_respects_same(a.drop_last(), b.drop_last());
        let sa = sort_by_recency(a.drop_last());
        let sb = sort_by_recency(b.drop_last());
        assert(same_entry(a.last(), b.last())) by {
            assert(same_entry(a[a.len() - 1], b[b.len() - 1]));
        }
        lemma_first_older_same(sa, sb, a.last().modified_nanos);
        let p = first_older(sa, a.last().modified_nanos);
        lemma_first_older_bounds(sa, a.last().modified_nanos);
        let ra = sa.insert(p, a.last());
        let rb = sb.insert(p, b.last());
        assert forall|k: int| 0 <= k < ra.len() implies same_entry(#[trigger] ra[k], rb[k]) by {
            if k < p {
                assert(same_entry(sa[k], sb[k]));
            } else if k > p {
                assert(same_entry(sa[k - 1], sb[k - 1]));
            }
        }
    }
}

/// Entries that agree pairwise have the same first older position.
proof fn lemma_first_older_same(a: Seq<FileEntry>, b: Seq<FileEntry>, m: i128)
    requires
        same_entries(a, b),
    ensures
        first_older(a, m) == first_older(b, m),
    decreases a.len(),
{
    if a.len() > 0 {
        assert(same_entry(a[0], b[0]));
        assert forall|i: int| 0 <= i < a.drop_first().len() implies same_entry(
            #[trigger] a.drop_first()[i],
            b.drop_first()[i],
        ) by {
            assert(same_entry(a[i + 1], b[i + 1]));
        }
        lemma_first_older_same(a.drop_first(), b.drop_first(), m);
    }
}

/// Copies of the entries, sorted newest first, keeping the order of entries
/// modified at the same time.
fn sort_entries_by_recency(es: &Vec<FileEntry>) -> (r: Vec<FileEntry>)
    ensures
        same_entries(r@, sort_by_recency(es@)),
{
    let mut sorted: Vec<FileEntry> = Vec::new();
    let ghost all = es@;
    let n = es.len();
    let mut i: usize = 0;
    while i < n
        invariant
            n == es.len(),
            all == es@,
            i <= n,
            same_entries(sorted@, sort_by_recency(all.take(i as int))),
        decreases n - i,
    {
        let e = copy_entry(&es[i]);
        proof {
            assert(all.take(i + 1).drop_last() =~= all.take(i as int));
            assert(all.take(i + 1).last() == all[i as int]);
        }
        let ghost spec_sorted = sort_by_recency(all.take(i as int));
        let mut j: usize = 0;
        while j < sorted.len() && sorted[j].modified_nanos >= e.modified_nanos
            invariant
                j <= sorted.len(),
                forall|k: int| 0 <= k < j ==> (#[trigger] sorted@[k]).modified_nanos
                    >= e.modified_nanos,
            decreases sorted.len() - j,
        {
            j = j + 1;
        }
        proof {
            assert forall|k: int| 0 <= k < j implies (#[trigger] spec_sorted[k]).modified_nanos
                >= e.modified_nanos by {
                assert(same_entry(sorted@[k], spec_sorted[k]));
            }
            if j < sorted.len() {
                assert(same_entry(sorted@[j as int], spec_sorted[j as int]));
            }
            lemma_first_older_at(spec_sorted, e.modified_nanos, j as int);
        }
        let ghost old_sorted = sorted@;
        let ghost ev = e;
        sorted.insert(j, e);
        proof {
            let target = spec_sorted.insert(j as int, all[i as int]);
            assert(sort_by_recency(all.take(i + 1)) == target);
            assert forall|k: int| 0 <= k < sorted@.len() implies same_entry(
                #[trigger] sorted@[k],
                target[k],
            ) by {
                if k < j {
                    assert(same_entry(old_sorted[k], spec_sorted[k]));
                } else if k > j {
                    assert(same_entry(old_sorted[k - 1], spec_sorted[k - 1]));
                } else {
                    assert(sorted@[k] == ev);
                }
            }
        }
        i = i + 1;
    }
    proof {
        assert(all.take(n as int) =~= all);
    }
    sorted
}

/// The text files among `entries`, by name and size, newest first.
pub fn text_files_by_recency(entries: &Vec<FileEntry>) -> (r: Vec<(String, u64)>)
    ensures
        listing_view(r@) == spec_listing(entries@),
{
    let selected = select_text_entries(entries);
    let sorted = sort_entries_by_recency(&selected);
    let ghost target = sort_by_recency(text_entries(entries@));
    proof {
        lemma_sort_respects_same(selected@, text_entries(entries@));
        let mid = sort_by_recency(selected@);
        assert forall|k: int| 0 <= k < sorted@.len() implies same_entry(
            #[trigger] sorted@[k],
            target[k],
        ) by {
            assert(same_entry(sorted@[k], mid[k]));
            assert(same_entry(mid[k], target[k]));
        }
    }
    let mut r: Vec<(String, u64)> = Vec::new();
    let mut i: usize = 0;
    while i < sorted.len()
        invariant
            i <= sorted.len(),
            same_entries(sorted@, target),
            listing_view(r@) == target.take(i as int).map_values(
                |e: FileEntry| (e.name@, e.size_bytes),
            ),
        decreases sorted.len() - i,
    {
        proof {
            assert(same_entry(sorted@[i as int], target[i as int]));
        }
        let ghost before = r@;
        let name = sorted[i].name.clone();
        let pair = (name, sorted[i].size_bytes);
        let ghost pv = (pair.0@, pair.1);
        r.push(pair);
        proof {
            assert(pv == (target[i as int].name@, target[i as int].size_bytes));
            assert(target.take(i + 1) =~= target.take(i as int).push(target[i as int]));
            assert(listing_view(r@) =~= listing_view(before).push(pv));
            assert(listing_view(r@) =~= target.take(i + 1).map_values(
                |e: FileEntry| (e.name@, e.size_bytes),
            ));
        }
        i = i + 1;
    }
    proof {
        assert(target.take(sorted.len() as int) =~= target);
    }
    r
}

/// The listing of a subfolder that may be missing: empty when it is.
pub open spec fn spec_listing_of(entries: Option<Vec<FileEntry>>) -> Seq<(Seq<char>, u64)> {
    match entries {
        Some(es) => spec_listing(es@),
        None => Seq::empty(),
    }
}

/// The listing of a subfolder's text files, or none when it does not exist.
fn listing_of(entries: &Option<Vec<FileEntry>>) -> (r: Vec<(String, u64)>)
    ensures
        listing_view(r@) == spec_listing_of(*entries),
{
    match entries {
        Some(es) => text_files_by_recency(es),
        None => {
            let r: Vec<(String, u64)> = Vec::new();
            proof {
                assert(listing_view(r@) =~= Seq::<(Seq<char>, u64)>::empty());
            }
            r
        },
    }
}

/// The files currently vectorized (those in `archive/`), by name and size,
/// newest first: the "indexed" column.
pub fn list_archived_files(snapshot: &SourceFolderSnapshot) -> (r: Vec<(String, u64)>)
    ensures
        listing_view(r@) == spec_listing_of(snapshot.archive),
{
    listing_of(&snapshot.archive)
}

/// The files removed from the index (those in `delete/`), by name and size,
/// newest first: the "deleted" column.
pub fn list_deleted_files(snapshot: &SourceFolderSnapshot) -> (r: Vec<(String, u64)>)
    ensures
        listing_view(r@) == spec_listing_of(snapshot.deleted),
{
    listing_of(&snapshot.deleted)
}

/// Whether `a` comes strictly before `b` in lexicographic order of code points.
pub open spec fn name_lt(a: Seq<char>, b: Seq<char>) -> bool
    decreases a.len(),
{
    if a.len() == 0 {
        b.len() > 0
    } else if b.len() == 0 {
        false
    } else if a[0] != b[0] {
        (a[0] as int) < (b[0] as int)
    } else {
        name_lt(a.drop_first(), b.drop_first())
    }
}

/// The position of the first name in `s` that comes after `x`, or `s.len()`.
pub open spec fn first_after(s: Seq<Seq<char>>, x: Seq<char>) -> int
    decreases s.len(),
{
    if s.len() == 0 {
        0
    } else if name_lt(x, s[0]) {
        0
    } else {
        1 + first_after(s.drop_first(), x)
    }
}

/// The names in lexicographic order (a stable insertion sort).
pub open spec fn sort_by_name(s: Seq<Seq<char>>) -> Seq<Seq<char>>
    decreases s.len(),
{
    if s.len() == 0 {
        Seq::empty()
    } else {
        let sorted = sort_by_name(s.drop_last());
        sorted.insert(first_after(sorted, s.last()), s.last())
    }
}

/// The paths of the text files waiting in the source folder itself (not in
/// its subfolders), in lexicographic order of their names.
pub open spec fn spec_pending(source: Seq<char>, root: Seq<FileEntry>) -> Seq<Seq<char>> {
    sort_by_name(text_entries(root).map_values(|e: FileEntry| e.name@)).map_values(
        |n: Seq<char>| spec_join(source, n),
    )
}

/// Whether `a` comes strictly before `b` (see [`name_lt`]).
fn name_less(a: &Vec<char>, b: &Vec<char>) -> (r: bool)
    ensures
        r == name_lt(a@, b@),
{
    let mut i: usize = 0;
    proof {
        assert(a@.skip(0) =~= a@);
        assert(b@.skip(0) =~= b@);
    }
    while i < a.len() && i < b.len() && a[i] == b[i]
        invariant
            i <= a.len(),
            i <= b.len(),
            name_lt(a@, b@) == name_lt(a@.skip(i as int), b@.skip(i as int)),
        decreases a.len() - i,
    {
        proof {
            assert(a@.skip(i as int).drop_first() =~= a@.skip(i + 1));
            assert(b@.skip(i as int).drop_first() =~= b@.skip(i + 1));
        }
        i = i + 1;
    }
    if i == a.len() {
        i < b.len()
    } else if i == b.len() {
        false
    } else {
        a[i] < b[i]
    }
}

/// `first_after` is where the names not after `x` end, when that prefix is known.
proof fn lemma_first_after_at(s: Seq<Seq<char>>, x: Seq<char>, j: int)
    requires
        0 <= j <= s.len(),
        forall|k: int| 0 <= k < j ==> !name_lt(x, #[trigger] s[k]),
        j < s.len() ==> name_lt(x, s[j]),
    ensures
        first_after(s, x) == j,
    decreases j,
{
    if j > 0 {
        let t = s.drop_first();
        assert forall|k: int| 0 <= k < j - 1 implies !name_lt(x, #[trigger] t[k]) by {
            assert(t[k] == s[k + 1]);
        }
        if j < s.len() {
            assert(t[j - 1] == s[j]);
        }
        assert(!name_lt(x, s[0]));
        lemma_first_after_at(t, x, j - 1);
    }
}

/// The names of `v`, sorted.
fn sort_names(v: &Vec<Vec<char>>) -> (r: Vec<Vec<char>>)
    ensures
        text::char_vecs(r@) == sort_by_name(text::char_vecs(v@)),
{
    let ghost all = text::char_vecs(v@);
    let mut sorted: Vec<Vec<char>> = Vec::new();
    let mut i: usize = 0;
    proof {
        assert(text::char_vecs(sorted@) =~= Seq::<Seq<char>>::empty());
        assert(all.take(0) =~= Seq::<Seq<char>>::empty());
    }
    while i < v.len()
        invariant
            all == text::char_vecs(v@),
            i <= v.len(),
            text::char_vecs(sorted@) == sort_by_name(all.take(i as int)),
        decreases v.len() - i,
    {
        let x = text::copy_range(&v[i], 0, v[i].len());
        proof {
            assert(v@[i as int]@.subrange(0, v@[i as int]@.len() as int) =~= v@[i as int]@);
            assert(all.take(i + 1).drop_last() =~= all.take(i as int));
            assert(all.take(i + 1).last() == x@);
        }
        let ghost spec_sorted = sort_by_name(all.take(i as int));
        let mut j: usize = 0;
        while j < sorted.len() && !name_less(&x, &sorted[j])
            invariant
                j <= sorted.len(),
                spec_sorted == text::char_vecs(sorted@),
                forall|k: int| 0 <= k < j ==> !name_lt(x@, #[trigger] spec_sorted[k]),
            decreases sorted.len() - j,
        {
            j = j + 1;
        }
        proof {
            lemma_first_after_at(spec_sorted, x@, j as int);
        }
        let ghost old_view = text::char_vecs(sorted@);
        let ghost xv = x@;
        sorted.insert(j, x);
        proof {
            assert(text::char_vecs(sorted@) =~= old_view.insert(j as int, xv));
        }
        i = i + 1;
    }
    proof {
        assert(all.take(v.len() as int) =~= all);
    }
    sorted
}

/// The full paths of the text files waiting in the source folder itself (new
/// files dropped there to be vectorized), in lexicographic order of their
/// names. Files in `archive/` and `delete/` are not among them.
pub fn list_pending_ingestions(source: &str, snapshot: &SourceFolderSnapshot) -> (r: Vec<String>)
    ensures
        text::strings(r@) == spec_pending(source@, snapshot.root@),
{
    let selected = select_text_entries(&snapshot.root);
    let ghost names_spec = text_entries(snapshot.root@).map_values(|e: FileEntry| e.name@);
    let mut names: Vec<Vec<char>> = Vec::new();
    let mut i: usize = 0;
    while i < selected.len()
        invariant
            i <= selected.len(),
            same_entries(selected@, text_entries(snapshot.root@)),
            names_spec == text_entries(snapshot.root@).map_values(|e: FileEntry| e.name@),
            text::char_vecs(names@) == names_spec.take(i as int),
        decreases selected.len() - i,
    {
        let ghost before = text::char_vecs(names@);
        let c = chars_of(selected[i].name.as_str());
        proof {
            assert(same_entry(selected@[i as int], text_entries(snapshot.root@)[i as int]));
            assert(names_spec[i as int] == c@);
            assert(names_spec.take(i + 1) =~= names_spec.take(i as int).push(c@));
        }
        let ghost cv = c@;
        names.push(c);
        proof {
            assert(text::char_vecs(names@) =~= before.push(cv));
        }
        i = i + 1;
    }
    proof {
        assert(names_spec.take(selected.len() as int) =~= names_spec);
    }
    let sorted = sort_names(&names);
    let ghost target = sort_by_name(names_spec);
    let mut r: Vec<String> = Vec::new();
    let mut k: usize = 0;
    while k < sorted.len()
        invariant
            k <= sorted.len(),
            text::char_vecs(sorted@) == target,
            text::strings(r@) == target.take(k as int).map_values(
                |n: Seq<char>| spec_join(source@, n),
            ),
        decreases sorted.len() - k,
    {
        let ghost before = text::strings(r@);
        let name = string_from_chars(&sorted[k]);
        let p = join_path(source, name.as_str());
        let ghost pv = p@;
        r.push(p);
        proof {
            assert(target.take(k + 1) =~= target.take(k as int).push(target[k as int]));
            assert(text::strings(r@) =~= before.push(pv));
        }
        k = k + 1;
        proof {
            assert(text::strings(r@) =~= target.take(k as int).map_values(
                |n: Seq<char>| spec_join(source@, n),
            ));
        }
    }
    proof {
        assert(target.take(sorted.len() as int) =~= target);
    }
    r
}

/// Whether the entries are ordered newest first.
pub open spec fn newest_first(s: Seq<FileEntry>) -> bool {
    forall|i: int, j: int|
        0 <= i < j < s.len() ==> (#[trigger] s[i]).modified_nanos >= (#[trigger] s[j]).modified_nanos
}

/// Sorting by recency orders the entries newest first and keeps every entry,
/// as often as it occurs.
pub proof fn lemma_sort_by_recency(s: Seq<FileEntry>)
    ensures
        newest_first(sort_by_recency(s)),
        sort_by_recency(s).to_multiset() == s.to_multiset(),
    decreases s.len(),
{
    broadcast use vstd::seq_lib::group_to_multiset_ensures;
    if s.len() > 0 {
        let prev = s.drop_last();
        lemma_sort_by_recency(prev);
        let sorted = sort_by_recency(prev);
        let x = s.last();
        let p = first_older(sorted, x.modified_nanos);
        lemma_first_older_bounds(sorted, x.modified_nanos);
        lemma_first_older_split(sorted, x.modified_nanos);
        let r = sorted.insert(p, x);
        assert forall|i: int, j: int| 0 <= i < j < r.len() implies (#[trigger] r[i]).modified_nanos
            >= (#[trigger] r[j]).modified_nanos by {
            if i < p {
                if j < p {
                    assert(r[i] == sorted[i] && r[j] == sorted[j]);
                } else if j == p {
                    assert(r[i] == sorted[i]);
                } else {
                    assert(r[i] == sorted[i] && r[j] == sorted[j - 1]);
                }
            } else if i == p {
                assert(r[j] == sorted[j - 1]);
            } else {
                assert(r[i] == sorted[i - 1] && r[j] == sorted[j - 1]);
            }
        }
        assert(s =~= prev.push(x));
    }
}

/// In entries ordered newest first, those before `first_older` are modified
/// at or after `m`, and those from it on before `m`.
proof fn lemma_first_older_split(s: Seq<FileEntry>, m: i128)
    requires
        newest_first(s),
    ensures
        forall|k: int| 0 <= k < first_older(s, m) ==> (#[trigger] s[k]).modified_nanos >= m,
        forall|k: int| first_older(s, m) <= k < s.len() ==> (#[trigger] s[k]).modified_nanos < m,
    decreases s.len(),
{
    if s.len() > 0 {
        let t = s.drop_first();
        assert forall|i: int, j: int| 0 <= i < j < t.len() implies (#[trigger] t[i]).modified_nanos
            >= (#[trigger] t[j]).modified_nanos by {
            assert(t[i] == s[i + 1] && t[j] == s[j + 1]);
        }
        lemma_first_older_split(t, m);
        if s[0].modified_nanos < m {
            assert forall|k: int| 0 <= k < s.len() implies (#[trigger] s[k]).modified_nanos < m by {
                if k > 0 {
                    assert(s[0].modified_nanos >= s[k].modified_nanos);
                }
            }
        } else {
            assert(first_older(s, m) == 1 + first_older(t, m));
            lemma_first_older_bounds(t, m);
            assert forall|k: int| 0 <= k < first_older(s, m) implies (#[trigger] s[k]).modified_nanos
                >= m by {
                if k > 0 {
                    assert(s[k] == t[k - 1]);
                }
            }
            assert forall|k: int| first_older(s, m) <= k < s.len() implies (
            #[trigger] s[k]).modified_nanos < m by {
                assert(s[k] == t[k - 1]);
            }
        }
    }
}

/// The text entries are exactly the text-file entries of the folder: each of
/// them is a text file, and each text file of the folder is among them.
pub proof fn lemma_text_entries(es: Seq<FileEntry>)
    ensures
        forall|i: int|
            0 <= i < text_entries(es).len() ==> is_text_entry(#[trigger] text_entries(es)[i]),
        forall|i: int|
            0 <= i < es.len() && is_text_entry(#[trigger] es[i]) ==> text_entries(es).contains(es[i]),
    decreases es.len(),
{
    if es.len() > 0 {
        let prev = es.drop_last();
        lemma_text_entries(prev);
        let rest = text_entries(prev);
        let r = text_entries(es);
        assert forall|i: int| 0 <= i < r.len() implies is_text_entry(#[trigger] r[i]) by {
            if i < rest.len() {
                assert(r[i] == rest[i]);
            }
        }
        assert forall|i: int| 0 <= i < es.len() && is_text_entry(#[trigger] es[i]) implies r.contains(
            es[i],
        ) by {
            if i < prev.len() {
                assert(prev[i] == es[i]);
                let k = choose|k: int| 0 <= k < rest.len() && rest[k] == es[i];
                assert(r[k] == rest[k]);
            } else {
                assert(r[r.len() - 1] == es[i]);
            }
        }
    }
}

/// A folder listing holds the text files of the folder and nothing else, each
/// as often as it occurs, ordered newest first.
pub proof fn lemma_listing_is_sorted_text_files(es: Seq<FileEntry>)
    ensures
        newest_first(sort_by_recency(text_entries(es))),
        sort_by_recency(text_entries(es)).to_multiset() == text_entries(es).to_multiset(),
        forall|i: int|
            0 <= i < text_entries(es).len() ==> is_text_entry(#[trigger] text_entries(es)[i]),
        forall|i: int|
            0 <= i < es.len() && is_text_entry(#[trigger] es[i]) ==> text_entries(es).contains(es[i]),
        spec_listing(es) == sort_by_recency(text_entries(es)).map_values(
            |e: FileEntry| (e.name@, e.size_bytes),
        ),
{
    lemma_sort_by_recency(text_entries(es));
    lemma_text_entries(es);
}

/// No name comes before itself.
proof fn lemma_name_lt_irreflexive(a: Seq<char>)
    ensures
        !name_lt(a, a),
    decreases a.len(),
{
    if a.len() > 0 {
        lemma_name_lt_irreflexive(a.drop_first());
    }
}

/// Coming before is transitive.
proof fn lemma_name_lt_transitive(a: Seq<char>, b: Seq<char>, c: Seq<char>)
    requires
        name_lt(a, b),
        name_lt(b, c),
    ensures
        name_lt(a, c),
    decreases a.len(),
{
    if a.len() > 0 && a[0] == b[0] && b[0] == c[0] {
        lemma_name_lt_transitive(a.drop_first(), b.drop_first(), c.drop_first());
    }
}

/// Of two different names, one comes before the other.
proof fn lemma_name_lt_total(a: Seq<char>, b: Seq<char>)
    requires
        a != b,
    ensures
        name_lt(a, b) || name_lt(b, a),
    decreases a.len(),
{
    if a.len() > 0 && b.len() > 0 {
        if a[0] == b[0] {
            if a.drop_first() == b.drop_first() {
                assert(a =~= seq![a[0]] + a.drop_first());
                assert(b =~= seq![b[0]] + b.drop_first());
            }
            lemma_name_lt_total(a.drop_first(), b.drop_first());
        } else {
            assert((a[0] as int) != (b[0] as int));
        }
    } else if a.len() == 0 && b.len() == 0 {
        assert(a =~= b);
    }
}

/// Whether the names are in lexicographic order.
pub open spec fn names_sorted(s: Seq<Seq<char>>) -> bool {
    forall|i: int, j: int| 0 <= i < j < s.len() ==> !name_lt(#[trigger] s[j], #[trigger] s[i])
}

/// Sorting names puts them in lexicographic order and keeps every name, as
/// often as it occurs.
pub proof fn lemma_sort_by_name(s: Seq<Seq<char>>)
    ensures
        names_sorted(sort_by_name(s)),
        sort_by_name(s).to_multiset() == s.to_multiset(),
    decreases s.len(),
{
    broadcast use vstd::seq_lib::group_to_multiset_ensures;
    if s.len() > 0 {
        let prev = s.drop_last();
        lemma_sort_by_name(prev);
        let sorted = sort_by_name(prev);
        let x = s.last();
        lemma_first_after_split(sorted, x);
        let p = first_after(sorted, x);
        let r = sorted.insert(p, x);
        assert forall|i: int, j: int| 0 <= i < j < r.len() implies !name_lt(
            #[trigger] r[j],
            #[trigger] r[i],
        ) by {
            if i < p {
                if j == p {
                    assert(r[i] == sorted[i]);
                } else if j < p {
                    assert(r[i] == sorted[i] && r[j] == sorted[j]);
                } else {
                    assert(r[i] == sorted[i] && r[j] == sorted[j - 1]);
                }
            } else if i == p {
                assert(r[j] == sorted[j - 1]);
                if name_lt(sorted[j - 1], x) {
                    lemma_name_lt_irreflexive(x);
                    lemma_name_lt_transitive(x, sorted[j - 1], x);
                }
            } else {
                assert(r[i] == sorted[i - 1] && r[j] == sorted[j - 1]);
            }
        }
        assert(s =~= prev.push(x));
    }
}

/// In sorted names, those before `first_after` do not come after `x`, and
/// those from it on do.
proof fn lemma_first_after_split(s: Seq<Seq<char>>, x: Seq<char>)
    requires
        names_sorted(s),
    ensures
        0 <= first_after(s, x) <= s.len(),
        forall|k: int| 0 <= k < first_after(s, x) ==> !name_lt(x, #[trigger] s[k]),
        forall|k: int| first_after(s, x) <= k < s.len() ==> name_lt(x, #[trigger] s[k]),
    decreases s.len(),
{
    if s.len() > 0 {
        let t = s.drop_first();
        assert forall|i: int, j: int| 0 <= i < j < t.len() implies !name_lt(
            #[trigger] t[j],
            #[trigger] t[i],
        ) by {
            assert(t[i] == s[i + 1] && t[j] == s[j + 1]);
        }
        lemma_first_after_split(t, x);
        if name_lt(x, s[0]) {
            assert forall|k: int| 0 <= k < s.len() implies name_lt(x, #[trigger] s[k]) by {
                if k > 0 {
                    assert(!name_lt(s[k], s[0]));
                    if s[k] == x {
                    } else {
                        lemma_name_lt_total(s[k], x);
                        if name_lt(s[k], x) {
                            lemma_name_lt_transitive(s[k], x, s[0]);
                        }
                    }
                }
            }
        } else {
            assert forall|k: int| 0 <= k < first_after(s, x) implies !name_lt(x, #[trigger] s[k]) by {
                if k > 0 {
                    assert(s[k] == t[k - 1]);
                }
            }
            assert forall|k: int| first_after(s, x) <= k < s.len() implies name_lt(x, #[trigger] s[k]) by {
                assert(s[k] == t[k - 1]);
            }
        }
    }
}

/// The pending files are the source folder's own text files, each once per
/// entry, their names in lexicographic order.
pub proof fn lemma_pending_sorted(source: Seq<char>, root: Seq<FileEntry>)
    ensures
        names_sorted(sort_by_name(text_entries(root).map_values(|e: FileEntry| e.name@))),
        sort_by_name(text_entries(root).map_values(|e: FileEntry| e.name@)).to_multiset()
            == text_entries(root).map_values(|e: FileEntry| e.name@).to_multiset(),
        spec_pending(source, root) == sort_by_name(
            text_entries(root).map_values(|e: FileEntry| e.name@),
        ).map_values(|n: Seq<char>| spec_join(source, n)),
{
    lemma_sort_by_name(text_entries(root).map_values(|e: FileEntry| e.name@));
}

} // verus!
