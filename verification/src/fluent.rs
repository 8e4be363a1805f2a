//! Reading the messages of a Fluent (`.ftl`) file.
//!
//! A message starts on a line that is not indented, with its key before
//! the first `=` and its value after it; indented lines that follow carry
//! the value on, one line each.  Blank lines and lines whose text starts
//! with `#` are skipped.
use vstd::prelude::*;

use crate::dto::{opt_view, ProjectWorkspaceKeyDto};
use crate::keyed::{deduped_by_key, dedupe_by_key, KeyedCopy, TextKeyed};
use crate::text;

verus! {

broadcast use vstd::string::group_string_axioms;

/// A message of a Fluent file, as the synchronisation stores it.
#[derive(Debug, Clone, PartialEq)]
pub struct ParsedFluentEntry {
    pub key: String,
    pub file_path: String,
    pub value: String,
}

/// The state of the reader after some lines: the message being read, as
/// (key, value so far), and the messages completed.
pub type ReadState = (Option<(Seq<char>, Seq<char>)>, Seq<(Seq<char>, Seq<char>)>);

/// A line that carries nothing: blank, or a comment.
pub open spec fn is_skipped_line(line: Seq<char>) -> bool {
    let t = text::trim(line);
    t.len() == 0 || t[0] == '#'
}

/// A line that starts with a space or a tab.
pub open spec fn is_indented(line: Seq<char>) -> bool {
    line.len() > 0 && (line[0] == ' ' || line[0] == '\t')
}

/// The completed messages, with the one being read, if any, completed too:
/// its value trimmed.
pub open spec fn close_message(state: ReadState) -> Seq<(Seq<char>, Seq<char>)> {
    match state.0 {
        Some((k, v)) => state.1.push((k, text::trim(v))),
        None => state.1,
    }
}

/// The reader after one more line.
pub open spec fn read_line(state: ReadState, line: Seq<char>) -> ReadState {
    let t = text::trim(line);
    if is_skipped_line(line) {
        state
    } else if !is_indented(line) {
        let done = close_message(state);
        match text::split_once(t, '=') {
            Some((k, v)) => (Some((text::trim(k), text::trim(v))), done),
            None => (None, done),
        }
    } else {
        match state.0 {
            Some((k, v)) => (
                Some((k, if v.len() == 0 { t } else { v.push('\n') + t })),
                state.1,
            ),
            None => state,
        }
    }
}

/// The reader after the given lines, from the start.
pub open spec fn read_lines(lines: Seq<Seq<char>>) -> ReadState
    decreases lines.len(),
{
    if lines.len() == 0 {
        (None, Seq::empty())
    } else {
        read_line(read_lines(lines.drop_last()), lines.last())
    }
}

/// The messages of a Fluent file, as (key, value) pairs in file order.
pub open spec fn fluent_messages(content: Seq<char>) -> Seq<(Seq<char>, Seq<char>)> {
    close_message(read_lines(text::lines(content)))
}

/// A message as plain values.
pub open spec fn message_view(m: (String, String)) -> (Seq<char>, Seq<char>) {
    (m.0@, m.1@)
}

/// The reader's current message as plain values.
pub open spec fn current_view(c: Option<(Vec<char>, Vec<char>)>) -> Option<(Seq<char>, Seq<char>)> {
    match c {
        Some((k, v)) => Some((k@, v@)),
        None => None,
    }
}

/// The messages of a Fluent file, as (key, value) pairs in file order.
pub fn fluent_messages_of(content: &str) -> (out: Vec<(String, String)>)
    ensures
        out@.map_values(|m: (String, String)| message_view(m)) == fluent_messages(content@),
{
    let cs = text::chars_of(content);
    let lines = text::lines_chars(cs.as_slice());
    let ghost ls = text::texts(lines@);
    let mut done: Vec<(String, String)> = Vec::new();
    let mut current: Option<(Vec<char>, Vec<char>)> = None;
    for i in 0..lines.len()
        invariant
            ls == text::texts(lines@),
            ls == text::lines(content@),
            (current_view(current), done@.map_values(|m: (String, String)| message_view(m)))
                == read_lines(ls.take(i as int)),
    {
        let line = &lines[i];
        proof {
            assert(ls.take(i + 1).drop_last() =~= ls.take(i as int));
            assert(ls.take(i + 1).last() == line@);
        }
        let t = text::trim_chars(line.as_slice());
        let ghost before_done = done@.map_values(|m: (String, String)| message_view(m));
        if t.len() == 0 || t[0] == '#' {
        } else if !(line.len() > 0 && (line[0] == ' ' || line[0] == '\t')) {
            match current {
                Some((k, v)) => {
                    let v = text::trim_chars(v.as_slice());
                    done.push((text::string_from(k.as_slice()), text::string_from(v.as_slice())));
                    assert(done@.map_values(|m: (String, String)| message_view(m)) =~= before_done.push((k@, v@)));
                },
                None => {},
            }
            current = match text::split_once_chars(t.as_slice(), '=') {
                Some((k, v)) => Some((text::trim_chars(k.as_slice()), text::trim_chars(v.as_slice()))),
                None => None,
            };
        } else {
            match current {
                Some((k, v)) => {
                    let mut v = v;
                    let ghost old_v = v@;
                    if v.len() > 0 {
                        v.push('\n');
                    }
                    let ghost mid = v@;
                    for j in 0..t.len()
                        invariant
                            v@ == mid + t@.take(j as int),
                    {
                        v.push(t[j]);
                        assert(t@.take(j + 1) =~= t@.take(j as int).push(t@[j as int]));
                        assert(mid + t@.take(j + 1) =~= (mid + t@.take(j as int)).push(t@[j as int]));
                    }
                    assert(t@.take(t@.len() as int) =~= t@);
                    assert(old_v.len() == 0 ==> v@ =~= t@);
                    current = Some((k, v));
                },
                None => {
                    current = None;
                },
            }
        }
    }
    assert(ls.take(ls.len() as int) =~= ls);
    match current {
        Some((k, v)) => {
            let ghost before_done = done@.map_values(|m: (String, String)| message_view(m));
            let v = text::trim_chars(v.as_slice());
            done.push((text::string_from(k.as_slice()), text::string_from(v.as_slice())));
            assert(done@.map_values(|m: (String, String)| message_view(m)) =~= before_done.push((k@, v@)));
        },
        None => {},
    }
    done
}

/// A stored message as plain values: key, file and value.
pub open spec fn entry_view(e: ParsedFluentEntry) -> (Seq<char>, Seq<char>, Seq<char>) {
    (e.key@, e.file_path@, e.value@)
}

/// The messages of the Fluent file at `file_path`, as the synchronisation
/// stores them.
pub fn parse_fluent_entries(file_path: &str, content: &str) -> (out: Vec<ParsedFluentEntry>)
    ensures
        out@.len() == fluent_messages(content@).len(),
        forall|i: int|
            0 <= i < out@.len() ==> #[trigger] entry_view(out@[i]) == (
                fluent_messages(content@)[i].0,
                file_path@,
                fluent_messages(content@)[i].1,
            ),
{
    let messages = fluent_messages_of(content);
    let ghost ms = messages@.map_values(|m: (String, String)| message_view(m));
    let mut out: Vec<ParsedFluentEntry> = Vec::new();
    for i in 0..messages.len()
        invariant
            ms == messages@.map_values(|m: (String, String)| message_view(m)),
            ms == fluent_messages(content@),
            out@.len() == i,
            forall|j: int|
                0 <= j < i ==> #[trigger] entry_view(out@[j]) == (ms[j].0, file_path@, ms[j].1),
    {
        let m = &messages[i];
        assert(ms[i as int] == message_view(*m));
        out.push(
            ParsedFluentEntry { key: m.0.clone(), file_path: file_path.to_string(), value: m.1.clone() },
        );
    }
    out
}

/// The messages of the Fluent file at `file_path` in `locale`, as the
/// workspace shows them.
pub fn parse_fluent_keys(file_path: &str, locale: Option<String>, content: &str) -> (out: Vec<
    ProjectWorkspaceKeyDto,
>)
    ensures
        out@.len() == fluent_messages(content@).len(),
        forall|i: int|
            0 <= i < out@.len() ==> {
                &&& (#[trigger] out@[i]).key@ == fluent_messages(content@)[i].0
                &&& out@[i].file_path@ == file_path@
                &&& opt_view(out@[i].locale) == opt_view(locale)
                &&& out@[i].value@ == fluent_messages(content@)[i].1
            },
{
    let messages = fluent_messages_of(content);
    let ghost ms = messages@.map_values(|m: (String, String)| message_view(m));
    let mut out: Vec<ProjectWorkspaceKeyDto> = Vec::new();
    for i in 0..messages.len()
        invariant
            ms == messages@.map_values(|m: (String, String)| message_view(m)),
            ms == fluent_messages(content@),
            out@.len() == i,
            forall|j: int|
                0 <= j < i ==> {
                    &&& (#[trigger] out@[j]).key@ == ms[j].0
                    &&& out@[j].file_path@ == file_path@
                    &&& opt_view(out@[j].locale) == opt_view(locale)
                    &&& out@[j].value@ == ms[j].1
                },
    {
        let m = &messages[i];
        assert(ms[i as int] == message_view(*m));
        let l = match &locale {
            Some(s) => Some(s.clone()),
            None => None,
        };
        out.push(
            ProjectWorkspaceKeyDto {
                key: m.0.clone(),
                file_path: file_path.to_string(),
                locale: l,
                value: m.1.clone(),
            },
        );
    }
    out
}

impl TextKeyed for ParsedFluentEntry {
    open spec fn text_key(self) -> Seq<char> {
        self.key@
    }

    fn key_text(&self) -> (r: &str) {
        self.key.as_str()
    }
}

impl KeyedCopy for ParsedFluentEntry {
    fn duplicate(&self) -> (r: Self) {
        ParsedFluentEntry { key: self.key.clone(), file_path: self.file_path.clone(), value: self.value.clone() }
    }
}

/// For each key, the last entry with that key, in increasing order of keys.
pub fn dedupe_entries_by_key(entries: &[ParsedFluentEntry]) -> (out: Vec<ParsedFluentEntry>)
    ensures
        deduped_by_key(out@, entries@),
{
    dedupe_by_key(entries)
}

// ---------------------------------------------------------------------------
// Laws
// ---------------------------------------------------------------------------

/// Every message of a reader's state has a trimmed key and value, and the
/// message being read a trimmed key.
pub open spec fn state_trimmed(state: ReadState) -> bool {
    &&& forall|i: int|
        0 <= i < state.1.len() ==> text::trim((#[trigger] state.1[i]).0) == state.1[i].0 && text::trim(
            state.1[i].1,
        ) == state.1[i].1
    &&& state.0 matches Some((k, v)) ==> text::trim(k) == k
}

/// Closing the message being read keeps every message trimmed.
proof fn lemma_close_trimmed(state: ReadState)
    requires
        state_trimmed(state),
    ensures
        forall|i: int|
            0 <= i < close_message(state).len() ==> text::trim((#[trigger] close_message(state)[i]).0)
                == close_message(state)[i].0 && text::trim(close_message(state)[i].1) == close_message(
                state,
            )[i].1,
{
    match state.0 {
        Some((k, v)) => {
            text::lemma_trim_idempotent(v);
            let done = close_message(state);
            assert forall|i: int| 0 <= i < done.len() implies text::trim((#[trigger] done[i]).0) == done[i].0
                && text::trim(done[i].1) == done[i].1 by {
                if i < state.1.len() {
                    assert(done[i] == state.1[i]);
                }
            }
        },
        None => {},
    }
}

/// The reader keeps every message trimmed, line after line.
proof fn lemma_read_lines_trimmed(lines: Seq<Seq<char>>)
    ensures
        state_trimmed(read_lines(lines)),
    decreases lines.len(),
{
    if lines.len() > 0 {
        lemma_read_lines_trimmed(lines.drop_last());
        let state = read_lines(lines.drop_last());
        let line = lines.last();
        lemma_close_trimmed(state);
        let t = text::trim(line);
        if !is_skipped_line(line) && !is_indented(line) {
            match text::split_once(t, '=') {
                Some((k, v)) => {
                    text::lemma_trim_idempotent(k);
                },
                None => {},
            }
        }
    }
}

/// Every message read from a Fluent file has a key and a value with no
/// white space at either end.
pub proof fn lemma_messages_trimmed(content: Seq<char>)
    ensures
        forall|i: int|
            0 <= i < fluent_messages(content).len() ==> text::trim((#[trigger] fluent_messages(content)[i]).0)
                == fluent_messages(content)[i].0 && text::trim(fluent_messages(content)[i].1)
                == fluent_messages(content)[i].1,
{
    let lines = text::lines(content);
    lemma_read_lines_trimmed(lines);
    lemma_close_trimmed(read_lines(lines));
}

} // verus!
