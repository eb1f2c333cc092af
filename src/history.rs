//! Prompt-history entries for a search picker: the newest distinct entries of
//! the tail of a JSON-lines log, and short previews of an entry.

use vstd::prelude::*;

verus! {

/// How many bytes at the end of the log are read.
pub const HISTORY_SEARCH_MAX_BYTES: u64 = 1024 * 1024;

/// How many entries are kept at most.
pub const HISTORY_SEARCH_MAX_ENTRIES: usize = 2000;

/// How many characters a preview holds at most.
pub const HISTORY_PREVIEW_MAX_CHARS: usize = 200;

/// What `str::trim` returns for a text.
pub uninterp spec fn trim_of(s: Seq<char>) -> Seq<char>;

/// What `str::lines` yields for a text.
pub uninterp spec fn lines_of(s: Seq<char>) -> Seq<Seq<char>>;

/// Relies on `str::trim`: the text without leading and trailing whitespace,
/// which depends on the characters alone.
#[verifier::external_body]
fn trim_text(s: &str) -> (r: &str)
    ensures
        r@ == trim_of(s@),
{
    s.trim()
}

/// Relies on `str::lines`: the lines of a text, without their terminators.
#[verifier::external_body]
fn text_lines(s: &str) -> (r: Vec<String>)
    ensures
        strings_view(r) == lines_of(s@),
{
    s.lines().map(|l| l.to_string()).collect()
}

pub open spec fn strings_view(v: Vec<String>) -> Seq<Seq<char>> {
    v@.map_values(|s: String| s@)
}

/// A text cut to the preview length: kept whole when short enough, else its
/// first characters followed by an ellipsis.
pub open spec fn preview_of(t: Seq<char>) -> Seq<char> {
    if t.len() <= HISTORY_PREVIEW_MAX_CHARS {
        t
    } else {
        t.take(HISTORY_PREVIEW_MAX_CHARS - 1).push('\u{2026}')
    }
}

/// Cuts an already trimmed text to the preview length.
pub fn preview_of_trimmed(trimmed: &str) -> (r: String)
    ensures
        r@ == preview_of(trimmed@),
{
    let n = trimmed.unicode_len();
    if n <= HISTORY_PREVIEW_MAX_CHARS {
        String::from_str(trimmed)
    } else {
        let head = trimmed.substring_char(0, HISTORY_PREVIEW_MAX_CHARS - 1);
        let mut s = String::from_str(head);
        proof {
            reveal_strlit("\u{2026}");
        }
        s.append("\u{2026}");
        assert(s@ =~= preview_of(trimmed@));
        s
    }
}

/// Trims a text and cuts it to the preview length.
pub fn truncate_preview(text: &str) -> (r: String)
    ensures
        r@ == preview_of(trim_of(text@)),
{
    preview_of_trimmed(trim_text(text))
}

/// The lines of an entry joined by single spaces.
pub open spec fn join_spaced(lines: Seq<Seq<char>>) -> Seq<char>
    decreases lines.len(),
{
    if lines.len() == 0 {
        seq![]
    } else if lines.len() == 1 {
        lines[0]
    } else {
        join_spaced(lines.drop_last()) + seq![' '] + lines.last()
    }
}

/// Preview of an entry: its first line, and the rest of it on one line when
/// there is any.
pub struct HistoryPreview {
    pub first: String,
    pub rest: Option<String>,
}

/// The first line of a text, or nothing when it has no line.
pub open spec fn first_line(text: Seq<char>) -> Seq<char> {
    if lines_of(text).len() > 0 {
        lines_of(text)[0]
    } else {
        seq![]
    }
}

/// The lines after the first, joined and trimmed.
pub open spec fn rest_text(text: Seq<char>) -> Seq<char> {
    if lines_of(text).len() > 0 {
        trim_of(join_spaced(lines_of(text).drop_first()))
    } else {
        trim_of(seq![])
    }
}

/// Splits an entry into a preview of its first line and a preview of the
/// remaining lines joined by spaces, absent when they hold nothing.
pub fn history_preview_lines(text: &str) -> (r: HistoryPreview)
    ensures
        r.first@ == preview_of(trim_of(trim_of(first_line(text@)))),
        rest_text(text@).len() == 0 ==> r.rest is None,
        rest_text(text@).len() > 0 ==> r.rest is Some && r.rest->0@ == preview_of(
            trim_of(rest_text(text@)),
        ),
{
    let lines = text_lines(text);
    let first_raw: &str = if lines.len() > 0 {
        lines[0].as_str()
    } else {
        ""
    };
    proof {
        reveal_strlit("");
    }
    assert(first_raw@ == first_line(text@));
    let first = truncate_preview(trim_text(first_raw));
    let mut joined = String::new();
    let mut k: usize = 1;
    while k < lines.len()
        invariant
            1 <= k <= lines.len() || lines.len() == 0,
            lines.len() > 0 ==> joined@ == join_spaced(strings_view(lines).subrange(1, k as int)),
            lines.len() == 0 ==> joined@ == Seq::<char>::empty(),
        decreases lines.len() - k,
    {
        let ghost prev = strings_view(lines).subrange(1, k as int);
        let ghost next = strings_view(lines).subrange(1, k as int + 1);
        assert(next.drop_last() =~= prev);
        if k > 1 {
            joined.append(" ");
            proof {
                reveal_strlit(" ");
            }
        }
        joined.append(lines[k].as_str());
        assert(joined@ =~= join_spaced(next));
        k += 1;
    }
    if lines.len() > 0 {
        assert(strings_view(lines).subrange(1, lines.len() as int) =~= lines_of(
            text@,
        ).drop_first());
    } else {
        assert(joined@ =~= seq![]);
    }
    let rest = trim_text(joined.as_str());
    let rest = if rest.is_empty() {
        None
    } else {
        Some(truncate_preview(rest))
    };
    HistoryPreview { first, rest }
}

/// What `String::from_utf8_lossy` decodes from bytes.
pub uninterp spec fn lossy_of(b: Seq<u8>) -> Seq<char>;

/// The string that serde_json finds under `key` when `text` parses as a JSON
/// object; nothing when it does not parse, is no object, or holds no string
/// there.
pub uninterp spec fn json_string_field_of(text: Seq<char>, key: Seq<char>) -> Option<Seq<char>>;

/// Relies on `String::from_utf8_lossy`: the bytes decoded as UTF-8, with each
/// invalid sequence replaced; the result depends on the bytes alone.
#[verifier::external_body]
fn lossy_text(buf: &Vec<u8>, start: usize, end: usize) -> (r: String)
    requires
        start <= end <= buf.len(),
    ensures
        r@ == lossy_of(buf@.subrange(start as int, end as int)),
{
    String::from_utf8_lossy(&buf[start..end]).into_owned()
}

/// Relies on `serde_json::from_str` into a `serde_json::Value`, and on
/// `serde_json::Map::remove` to take the member `key` out of the object.
#[verifier::external_body]
fn json_string_field(text: &str, key: &str) -> (r: Option<String>)
    ensures
        match r {
            Some(s) => json_string_field_of(text@, key@) == Some(s@),
            None => json_string_field_of(text@, key@) is None,
        },
{
    match serde_json::from_str::<serde_json::Value>(text) {
        Ok(serde_json::Value::Object(mut fields)) => match fields.remove(key) {
            Some(serde_json::Value::String(s)) => Some(s),
            _ => None,
        },
        _ => None,
    }
}

/// `k` is the position of the last newline byte of `b`.
pub open spec fn is_last_newline(b: Seq<u8>, k: int) -> bool {
    0 <= k < b.len() && b[k] == 10 && forall|m: int| k < m < b.len() ==> b[m] != 10
}

/// `k` is the position of the first newline byte of `b`.
pub open spec fn is_first_newline(b: Seq<u8>, k: int) -> bool {
    0 <= k < b.len() && b[k] == 10 && forall|m: int| 0 <= m < k ==> b[m] != 10
}

/// The newline-separated lines of `b`, the last one first.
pub open spec fn lines_newest_first(b: Seq<u8>) -> Seq<Seq<u8>>
    decreases b.len(),
{
    if exists|k: int| is_last_newline(b, k) {
        let k = choose|k: int| is_last_newline(b, k);
        seq![b.subrange(k + 1, b.len() as int)] + lines_newest_first(b.take(k))
    } else {
        seq![b]
    }
}

/// The entry that a log line holds: the non-empty `text` member of the JSON
/// object on the trimmed line.
pub open spec fn line_entry(line: Seq<u8>) -> Option<Seq<char>> {
    let t = trim_of(lossy_of(line));
    if t.len() == 0 {
        None
    } else {
        match json_string_field_of(t, "text"@) {
            Some(s) => if s.len() > 0 {
                Some(s)
            } else {
                None
            },
            None => None,
        }
    }
}

/// Appends entries to `acc` in the order given, skipping an entry equal to the
/// one appended just before it, until `acc` holds the maximum.
pub open spec fn pick_entries(cands: Seq<Option<Seq<char>>>, acc: Seq<Seq<char>>) -> Seq<
    Seq<char>,
>
    decreases cands.len(),
{
    if cands.len() == 0 || acc.len() >= HISTORY_SEARCH_MAX_ENTRIES {
        acc
    } else {
        pick_entries(cands.drop_first(), keep(acc, cands[0]))
    }
}

/// `acc` with `entry` appended, unless it is absent or equal to the last
/// entry of `acc`.
pub open spec fn keep(acc: Seq<Seq<char>>, entry: Option<Seq<char>>) -> Seq<Seq<char>> {
    if entry is Some && (acc.len() == 0 || acc.last() != entry->0) {
        acc.push(entry->0)
    } else {
        acc
    }
}

/// Appends `entry` to `out` unless it is absent or repeats the last entry.
pub fn keep_entry(out: &mut Vec<String>, entry: Option<String>)
    ensures
        strings_view(*final(out)) == keep(
            strings_view(*old(out)),
            match entry {
                Some(s) => Some(s@),
                None => None,
            },
        ),
{
    let ghost acc = strings_view(*out);
    if let Some(s) = entry {
        let dup = out.len() > 0 && out[out.len() - 1].eq(&s);
        if !dup {
            out.push(s);
            assert(strings_view(*out) =~= acc.push(s@));
        }
    }
}

/// The entries of the log text `b`, newest first, appended to `acc`.
pub open spec fn entries_from(b: Seq<u8>, acc: Seq<Seq<char>>) -> Seq<Seq<char>> {
    pick_entries(lines_newest_first(b).map_values(|l: Seq<u8>| line_entry(l)), acc)
}

/// The entries of a window read from a log. When the window does not start at
/// the beginning of the log, its first line may be partial and is dropped,
/// up to and including the first newline; without a newline nothing is left.
pub open spec fn history_entries_of(buf: Seq<u8>, from_middle: bool) -> Seq<Seq<char>> {
    if !from_middle {
        entries_from(buf, seq![])
    } else if exists|k: int| is_first_newline(buf, k) {
        let k = choose|k: int| is_first_newline(buf, k);
        entries_from(buf.skip(k + 1), seq![])
    } else {
        seq![]
    }
}

proof fn lemma_lines_at_newline(b: Seq<u8>, k: int)
    requires
        is_last_newline(b, k),
    ensures
        lines_newest_first(b) == seq![b.subrange(k + 1, b.len() as int)] + lines_newest_first(
            b.take(k),
        ),
{
    let c = choose|c: int| is_last_newline(b, c);
    if c < k {
        assert(b[k] != 10);
    } else if k < c {
        assert(b[c] != 10);
    }
    assert(c == k);
}

proof fn lemma_entries_step(b: Seq<u8>, k: int, acc: Seq<Seq<char>>)
    requires
        is_last_newline(b, k),
        acc.len() < HISTORY_SEARCH_MAX_ENTRIES,
    ensures
        ({
            let e = line_entry(b.subrange(k + 1, b.len() as int));
            entries_from(b, acc) == entries_from(b.take(k), keep(acc, e))
        }),
{
    lemma_lines_at_newline(b, k);
    let f = |l: Seq<u8>| line_entry(l);
    let line = b.subrange(k + 1, b.len() as int);
    let rest = lines_newest_first(b.take(k));
    let cands = lines_newest_first(b).map_values(f);
    assert(cands =~= seq![line_entry(line)] + rest.map_values(f));
    assert(cands.drop_first() =~= rest.map_values(f));
}

proof fn lemma_entries_last_line(b: Seq<u8>, acc: Seq<Seq<char>>)
    requires
        forall|m: int| 0 <= m < b.len() ==> b[m] != 10,
        acc.len() < HISTORY_SEARCH_MAX_ENTRIES,
    ensures
        ({
            let e = line_entry(b);
            entries_from(b, acc) == keep(acc, e)
        }),
{
    assert(!exists|k: int| is_last_newline(b, k));
    let f = |l: Seq<u8>| line_entry(l);
    let cands = lines_newest_first(b).map_values(f);
    assert(cands =~= seq![line_entry(b)]);
    assert(cands.drop_first() =~= Seq::<Option<Seq<char>>>::empty());
    assert(pick_entries(Seq::empty(), keep(acc, line_entry(b))) == keep(acc, line_entry(b)));
}

/// Start of the window read from a log of `len` bytes: the last
/// `HISTORY_SEARCH_MAX_BYTES` of it, or all of it.
pub fn history_window_start(len: u64) -> (r: u64)
    ensures
        r == if len > HISTORY_SEARCH_MAX_BYTES {
            len - HISTORY_SEARCH_MAX_BYTES
        } else {
            0
        },
{
    if len > HISTORY_SEARCH_MAX_BYTES {
        len - HISTORY_SEARCH_MAX_BYTES
    } else {
        0
    }
}

/// The entry of the line `buf[start..end]`, if it holds one.
fn read_line_entry(buf: &Vec<u8>, start: usize, end: usize) -> (r: Option<String>)
    requires
        start <= end <= buf.len(),
    ensures
        match r {
            Some(s) => line_entry(buf@.subrange(start as int, end as int)) == Some(s@),
            None => line_entry(buf@.subrange(start as int, end as int)) is None,
        },
{
    let text = lossy_text(buf, start, end);
    let t = trim_text(text.as_str());
    if t.is_empty() {
        return None;
    }
    match json_string_field(t, "text") {
        Some(s) => if s.as_str().is_empty() {
            None
        } else {
            Some(s)
        },
        None => None,
    }
}

fn newest_entries(buf: &Vec<u8>, begin: usize) -> (r: Vec<String>)
    requires
        begin <= buf.len(),
    ensures
        strings_view(r) == entries_from(buf@.subrange(begin as int, buf.len() as int), seq![]),
{
    let mut out: Vec<String> = Vec::new();
    let mut end: usize = buf.len();
    assert(strings_view(out) =~= seq![]);
    loop
        invariant
            begin <= end <= buf.len(),
            entries_from(buf@.subrange(begin as int, buf.len() as int), seq![]) == entries_from(
                buf@.subrange(begin as int, end as int),
                strings_view(out),
            ),
        decreases end,
    {
        let ghost window = buf@.subrange(begin as int, end as int);
        let ghost acc = strings_view(out);
        if out.len() >= HISTORY_SEARCH_MAX_ENTRIES {
            return out;
        }
        let mut i: usize = end;
        while i > begin && buf[i - 1] != 10
            invariant
                begin <= i <= end,
                end <= buf.len(),
                forall|m: int| i <= m < end ==> buf@[m] != 10,
            decreases i,
        {
            i -= 1;
        }
        let entry = read_line_entry(buf, i, end);
        keep_entry(&mut out, entry);
        proof {
            if i == begin {
                assert(window =~= buf@.subrange(i as int, end as int));
                lemma_entries_last_line(window, acc);
            } else {
                let k = i - 1 - begin;
                assert(is_last_newline(window, k as int));
                lemma_entries_step(window, k as int, acc);
                assert(window.subrange(k + 1, window.len() as int) =~= buf@.subrange(
                    i as int,
                    end as int,
                ));
                assert(window.take(k as int) =~= buf@.subrange(begin as int, i - 1));
            }
        }
        if i == begin {
            proof {
                if strings_view(out).len() < HISTORY_SEARCH_MAX_ENTRIES {
                    assert(pick_entries(Seq::empty(), strings_view(out)) == strings_view(out));
                }
            }
            return out;
        }
        end = i - 1;
    }
}

/// The entries of a window read from a log, newest first: the non-empty
/// `text` members of its JSON lines, blank and unreadable lines skipped, an
/// entry equal to the one kept just before it dropped, at most
/// `HISTORY_SEARCH_MAX_ENTRIES` of them. `from_middle` says that the window
/// does not start at the beginning of the log.
pub fn history_entries(buf: &Vec<u8>, from_middle: bool) -> (r: Vec<String>)
    ensures
        strings_view(r) == history_entries_of(buf@, from_middle),
{
    if !from_middle {
        assert(buf@.subrange(0, buf.len() as int) =~= buf@);
        return newest_entries(buf, 0);
    }
    let mut i: usize = 0;
    while i < buf.len() && buf[i] != 10
        invariant
            i <= buf.len(),
            forall|m: int| 0 <= m < i ==> buf@[m] != 10,
        decreases buf.len() - i,
    {
        i += 1;
    }
    if i == buf.len() {
        assert(!exists|k: int| is_first_newline(buf@, k));
        let out: Vec<String> = Vec::new();
        assert(strings_view(out) =~= seq![]);
        return out;
    }
    assert(is_first_newline(buf@, i as int));
    let ghost c = choose|k: int| is_first_newline(buf@, k);
    proof {
        if c < i {
            assert(buf@[c] != 10);
        } else if i < c {
            assert(buf@[i as int] != 10);
        }
    }
    assert(buf@.subrange(i + 1, buf.len() as int) =~= buf@.skip(i + 1));
    newest_entries(buf, i + 1)
}

} // verus!
