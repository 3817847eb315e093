//! The parser: text is cut into lines, each line is classified, and the
//! lines are applied in order to a document that starts with the default
//! section alone.

use crate::document::{default_name, value_model, Document, DocumentModel};
use crate::text::{
    decimal, find_first, find_last, lowercase_of, push_decimal, to_chars, to_lower, to_text,
    trim_range, trimmed,
};
use vstd::string::StringExecFns;
use vstd::prelude::*;

verus! {

/// Why a text is no document.
#[derive(Debug, Clone, Copy, PartialEq, Eq, Structural)]
pub enum ParseError {
    /// The line with this number, counted from one, opens a section header
    /// with `[` and never closes it with `]`.
    MalformedHeader { line_number: usize },
}

/// The words of an error: the line, then what is wrong with it.
pub open spec fn message_of(e: ParseError) -> Seq<char> {
    match e {
        ParseError::MalformedHeader { line_number } => "line "@ + decimal(line_number as nat)
            + ": found an opening bracket for a section name but no closing bracket"@,
    }
}

impl ParseError {
    /// The error in words, for a person to read.
    pub fn message(&self) -> (s: String)
        ensures
            s@ == message_of(*self),
    {
        match self {
            ParseError::MalformedHeader { line_number } => {
                let mut s = "line ".to_owned();
                push_decimal(&mut s, *line_number);
                s.append(": found an opening bracket for a section name but no closing bracket");
                s
            },
        }
    }

    /// The number of the line that the error is about, counted from one.
    pub fn line_number(&self) -> (n: usize)
        ensures
            self == (ParseError::MalformedHeader { line_number: n }),
    {
        match self {
            ParseError::MalformedHeader { line_number } => *line_number,
        }
    }
}

/// What one line says.
#[derive(Debug)]
pub enum Line {
    /// Nothing: the line is empty or holds whitespace only.
    Blank,
    /// A section header with this name.
    Header(String),
    /// A key, and its value where the line has a `=`.
    Pair(String, Option<String>),
    /// A section header that is not closed.
    Malformed,
}

/// What one line says, over character sequences.
pub enum LineModel {
    Blank,
    Header(Seq<char>),
    Pair(Seq<char>, Option<Seq<char>>),
    Malformed,
}

impl View for Line {
    type V = LineModel;

    open spec fn view(&self) -> LineModel {
        match self {
            Line::Blank => LineModel::Blank,
            Line::Header(name) => LineModel::Header(name@),
            Line::Pair(key, value) => LineModel::Pair(key@, value_model(*value)),
            Line::Malformed => LineModel::Malformed,
        }
    }
}

/// The meaning of a line. Surrounding whitespace never counts. A line that
/// starts with `[` is a header, named by what stands before its last `]`,
/// trimmed and in lower case. Any other line is a key, in lower case; where
/// it has a `=`, the key stands before the first one and the value after it.
pub open spec fn classify(line: Seq<char>) -> LineModel {
    let t = trimmed(line);
    if t.len() == 0 {
        LineModel::Blank
    } else if t[0] == '[' {
        match t.index_of_last(']') {
            Some(end) => LineModel::Header(lowercase_of(trimmed(t.subrange(1, end)))),
            None => LineModel::Malformed,
        }
    } else {
        match t.index_of_first('=') {
            Some(at) => LineModel::Pair(
                lowercase_of(trimmed(t.subrange(0, at))),
                Some(trimmed(t.subrange(at + 1, t.len() as int))),
            ),
            None => LineModel::Pair(lowercase_of(t), None),
        }
    }
}

/// The lines of a text: the stretches between its line feeds.
pub open spec fn lines_of(s: Seq<char>) -> Seq<Seq<char>>
    decreases s.len(),
    via lines_of_decreases
{
    match s.index_of_first('\n') {
        Some(at) => seq![s.subrange(0, at)] + lines_of(s.subrange(at + 1, s.len() as int)),
        None => seq![s],
    }
}

#[via_fn]
proof fn lines_of_decreases(s: Seq<char>) {
    s.index_of_first_ensures('\n');
}

/// The state between two lines: the document so far, and the name of the
/// section that the next key goes to.
pub struct ParseState {
    pub doc: DocumentModel,
    pub current: Seq<char>,
}

/// The state before the first line.
pub open spec fn initial_state() -> ParseState {
    ParseState {
        doc: Map::<Seq<char>, Map<Seq<char>, Option<Seq<char>>>>::empty().insert(
            default_name(),
            Map::<Seq<char>, Option<Seq<char>>>::empty(),
        ),
        current: default_name(),
    }
}

/// What the line with number `number` does to the state.
pub open spec fn step(st: ParseState, line: Seq<char>, number: nat) -> Result<
    ParseState,
    ParseError,
> {
    match classify(line) {
        LineModel::Blank => Ok(st),
        LineModel::Malformed => Err(ParseError::MalformedHeader { line_number: number as usize }),
        LineModel::Header(name) => Ok(
            ParseState {
                doc: if st.doc.contains_key(name) {
                    st.doc
                } else {
                    st.doc.insert(name, Map::<Seq<char>, Option<Seq<char>>>::empty())
                },
                current: name,
            },
        ),
        LineModel::Pair(key, value) => Ok(
            ParseState {
                doc: st.doc.insert(st.current, st.doc[st.current].insert(key, value)),
                current: st.current,
            },
        ),
    }
}

/// The state after all of `lines`, or the error of the first line that has
/// one. The lines are numbered from one.
pub open spec fn run(lines: Seq<Seq<char>>) -> Result<ParseState, ParseError>
    decreases lines.len(),
{
    if lines.len() == 0 {
        Ok(initial_state())
    } else {
        match run(lines.drop_last()) {
            Ok(st) => step(st, lines.last(), lines.len()),
            Err(e) => Err(e),
        }
    }
}

/// The document that a text stands for, or the reason why it stands for none.
pub open spec fn document_of(text: Seq<char>) -> Result<DocumentModel, ParseError> {
    match run(lines_of(text)) {
        Ok(st) => Ok(st.doc),
        Err(e) => Err(e),
    }
}

/// Once a line has failed, the lines after it change nothing.
pub proof fn lemma_error_stays(lines: Seq<Seq<char>>, more: Seq<Seq<char>>)
    requires
        run(lines) is Err,
    ensures
        run(lines + more) == run(lines),
    decreases more.len(),
{
    if more.len() == 0 {
        assert(lines + more =~= lines);
    } else {
        lemma_error_stays(lines, more.drop_last());
        assert((lines + more).drop_last() =~= lines + more.drop_last());
    }
}

/// Classifies the line `v[lo..hi]`.
pub fn classify_range(v: &Vec<char>, lo: usize, hi: usize) -> (r: Line)
    requires
        lo <= hi <= v.len(),
    ensures
        r@ == classify(v@.subrange(lo as int, hi as int)),
{
    let bounds = trim_range(v, lo, hi);
    let a: usize = bounds.0;
    let b: usize = bounds.1;
    let ghost t = v@.subrange(a as int, b as int);
    if a == b {
        return Line::Blank;
    }
    assert(t[0] == v@[a as int]);
    if v[a] == '[' {
        match find_last(v, a, b, ']') {
            Some(end) => {
                assert(t[end - a] == ']') by {
                    t.index_of_last_ensures(']');
                }
                assert(t.subrange(1, end - a) =~= v@.subrange(a + 1, end as int));
                let inner = trim_range(v, a + 1, end);
                let name = to_text(v, inner.0, inner.1);
                Line::Header(to_lower(&name))
            },
            None => Line::Malformed,
        }
    } else {
        match find_first(v, a, b, '=') {
            Some(at) => {
                assert(t.subrange(0, at - a) =~= v@.subrange(a as int, at as int));
                assert(t.subrange(at - a + 1, t.len() as int) =~= v@.subrange(at + 1, b as int));
                let left = trim_range(v, a, at);
                let right = trim_range(v, at + 1, b);
                let key = to_text(v, left.0, left.1);
                let value = to_text(v, right.0, right.1);
                Line::Pair(to_lower(&key), Some(value))
            },
            None => {
                let key = to_text(v, a, b);
                Line::Pair(to_lower(&key), None)
            },
        }
    }
}

/// Classifies one line of text.
pub fn classify_line(line: &str) -> (r: Line)
    ensures
        r@ == classify(line@),
{
    let v = to_chars(line);
    assert(v@.subrange(0, v.len() as int) =~= v@);
    classify_range(&v, 0, v.len())
}

/// Parses a text into a document. Either every line is applied, in order,
/// or the first unclosed header is reported with its line number and no
/// document is returned.
pub fn parse(text: &str) -> (r: Result<Document, ParseError>)
    ensures
        match r {
            Ok(d) => {
                &&& d.wf()
                &&& d@.contains_key(default_name())
                &&& document_of(text@) == Ok::<DocumentModel, ParseError>(d@)
            },
            Err(e) => document_of(text@) == Err::<DocumentModel, ParseError>(e),
        },
{
    let v = to_chars(text);
    let n: usize = v.len();
    let mut doc = Document::new();
    let mut cur: usize = 0;
    let mut pos: usize = 0;
    let mut done_count: usize = 0;
    let ghost mut done: Seq<Seq<char>> = Seq::empty();
    assert(v@.subrange(0, n as int) =~= v@);
    assert(done + lines_of(v@) =~= lines_of(v@));
    loop
        invariant
            n == v.len(),
            v@ == text@,
            pos <= n,
            done_count == done.len(),
            done_count <= pos,
            lines_of(v@) == done + lines_of(v@.subrange(pos as int, n as int)),
            doc.wf(),
            cur < doc.count(),
            run(done) == Ok::<ParseState, ParseError>(
                ParseState { doc: doc@, current: doc.name_at(cur as int) },
            ),
        decreases n - pos,
    {
        let ghost rest = v@.subrange(pos as int, n as int);
        let found = find_first(&v, pos, n, '\n');
        let end: usize = match found {
            Some(at) => at,
            None => n,
        };
        let ghost line = v@.subrange(pos as int, end as int);
        let ghost before = done;
        let ghost after = if found is Some {
            lines_of(v@.subrange(end + 1, n as int))
        } else {
            Seq::<Seq<char>>::empty()
        };
        proof {
            rest.index_of_first_ensures('\n');
            assert(rest.subrange(0, end - pos) =~= line);
            if found is Some {
                assert(rest.subrange(end - pos + 1, rest.len() as int) =~= v@.subrange(
                    end + 1,
                    n as int,
                ));
                assert(lines_of(rest) == seq![line] + lines_of(v@.subrange(end + 1, n as int)));
                assert(done + (seq![line] + lines_of(v@.subrange(end + 1, n as int)))
                    =~= done.push(line) + lines_of(v@.subrange(end + 1, n as int)));
            } else {
                assert(rest =~= line);
                assert(lines_of(rest) == seq![line]);
                assert(done + seq![line] =~= done.push(line));
            }
            done = done.push(line);
            assert(done.drop_last() =~= before);
            assert(lines_of(v@) =~= done + after);
            doc.lemma_wf();
        }
        match classify_range(&v, pos, end) {
            Line::Blank => {},
            Line::Malformed => {
                assert(trimmed(line).len() > 0);
                assert(line.len() > 0) by {
                    if line.len() == 0 {
                        assert(trimmed(line) =~= line);
                    }
                }
                proof {
                    lemma_error_stays(done, after);
                }
                return Err(ParseError::MalformedHeader { line_number: done_count + 1 });
            },
            Line::Header(name) => {
                cur = doc.open_section(name);
            },
            Line::Pair(key, value) => {
                doc.put_at(cur, key, value);
            },
        }
        if found.is_none() {
            proof {
                doc.lemma_wf();
            }
            return Ok(doc);
        }
        pos = end + 1;
        done_count = done_count + 1;
    }
}

} // verus!
