//! What holds of every text: facts about the parser that are proved once
//! and for all, over the same models as its contract.

use crate::document::{default_name, Document, DocumentModel};
use crate::parser::{classify, lines_of, document_of, run, LineModel, ParseError, ParseState};
use crate::text::{is_space, lowercase_of, trim_end, trim_start, trimmed};
use vstd::prelude::*;

verus! {

/// Whether a line opens a section header that it never closes.
pub open spec fn unclosed(line: Seq<char>) -> bool {
    classify(line) is Malformed
}

/// Whether a line is a section header.
pub open spec fn is_header(line: Seq<char>) -> bool {
    classify(line) is Header
}

/// While the lines are applied, the document holds the default section and
/// the section that the next key goes to.
pub proof fn lemma_state_sound(lines: Seq<Seq<char>>)
    ensures
        match run(lines) {
            Ok(st) => st.doc.contains_key(default_name()) && st.doc.contains_key(st.current),
            Err(_) => true,
        },
    decreases lines.len(),
{
    if lines.len() > 0 {
        lemma_state_sound(lines.drop_last());
    }
}

/// Every document that a text stands for holds the default section.
pub proof fn law_default_section_present(text: Seq<char>)
    ensures
        match document_of(text) {
            Ok(doc) => doc.contains_key(default_name()),
            Err(_) => true,
        },
{
    lemma_state_sound(lines_of(text));
}

/// The lines fail exactly when one of them is an unclosed header, and the
/// error then carries the number of the first such line.
pub proof fn lemma_first_unclosed_header(lines: Seq<Seq<char>>)
    ensures
        run(lines) is Err <==> exists|i: int| 0 <= i < lines.len() && unclosed(#[trigger] lines[i]),
        forall|i: int|
            0 <= i < lines.len() && unclosed(#[trigger] lines[i]) && (forall|j: int|
                0 <= j < i ==> !unclosed(#[trigger] lines[j])) ==> run(lines) == Err::<
                ParseState,
                ParseError,
            >(ParseError::MalformedHeader { line_number: (i + 1) as usize }),
    decreases lines.len(),
{
    if lines.len() > 0 {
        let init = lines.drop_last();
        lemma_first_unclosed_header(init);
        assert forall|i: int| 0 <= i < init.len() implies init[i] == lines[i] by {}
        if run(init) is Err {
            let w = choose|i: int| 0 <= i < init.len() && unclosed(#[trigger] init[i]);
            assert(unclosed(lines[w]));
        } else {
            if unclosed(lines.last()) {
                assert(unclosed(lines[lines.len() - 1]));
            }
            if exists|i: int| 0 <= i < lines.len() && unclosed(#[trigger] lines[i]) {
                let w = choose|i: int| 0 <= i < lines.len() && unclosed(#[trigger] lines[i]);
                if w < init.len() {
                    assert(unclosed(init[w]));
                }
            }
        }
        assert forall|i: int|
            0 <= i < lines.len() && unclosed(#[trigger] lines[i]) && (forall|j: int|
                0 <= j < i ==> !unclosed(#[trigger] lines[j])) implies run(lines) == Err::<
            ParseState,
            ParseError,
        >(ParseError::MalformedHeader { line_number: (i + 1) as usize }) by {
            if i < init.len() {
                assert(unclosed(init[i]));
                assert forall|j: int| 0 <= j < i implies !unclosed(#[trigger] init[j]) by {
                    assert(!unclosed(lines[j]));
                }
            } else {
                if run(init) is Err {
                    let w = choose|k: int| 0 <= k < init.len() && unclosed(#[trigger] init[k]);
                    assert(!unclosed(lines[w]));
                }
            }
        }
    }
}

/// A text stands for no document exactly when one of its lines is an
/// unclosed header, and the error then carries the number of the first such
/// line, counted from one. Nothing else is ever rejected.
pub proof fn law_failure_is_first_unclosed_header(text: Seq<char>)
    ensures
        document_of(text) is Err <==> exists|i: int|
            0 <= i < lines_of(text).len() && unclosed(#[trigger] lines_of(text)[i]),
        forall|i: int|
            0 <= i < lines_of(text).len() && unclosed(#[trigger] lines_of(text)[i]) && (forall|
                j: int,
            |
                0 <= j < i ==> !unclosed(#[trigger] lines_of(text)[j])) ==> document_of(text) == Err::<
                DocumentModel,
                ParseError,
            >(ParseError::MalformedHeader { line_number: (i + 1) as usize }),
{
    lemma_first_unclosed_header(lines_of(text));
}

/// The last write wins: after a line that gives a key a value, the section
/// that was current holds that key with that value, whatever it held before,
/// and every other key of every section is as it was.
pub proof fn law_last_write_wins(lines: Seq<Seq<char>>, line: Seq<char>)
    requires
        run(lines) is Ok,
        classify(line) is Pair,
    ensures
        run(lines.push(line)) is Ok,
        ({
            let before = run(lines)->Ok_0;
            let after = run(lines.push(line))->Ok_0;
            let key = classify(line)->Pair_0;
            let value = classify(line)->Pair_1;
            &&& after.current == before.current
            &&& after.doc.dom() == before.doc.dom()
            &&& after.doc[before.current].contains_key(key)
            &&& after.doc[before.current][key] == value
            &&& forall|n: Seq<char>, k: Seq<char>|
                !(n == before.current && k == key) ==> (#[trigger] after.doc[n].contains_key(k)
                    <==> before.doc[n].contains_key(k)) && after.doc[n][k] == before.doc[n][k]
        }),
{
    lemma_state_sound(lines);
    assert(lines.push(line).drop_last() =~= lines);
    let before = run(lines)->Ok_0;
    let after = run(lines.push(line))->Ok_0;
    assert(after.doc.dom() =~= before.doc.dom());
}

/// A key has a value exactly when its line has a `=`: a key without one is
/// told apart from a key with an empty value.
pub proof fn law_value_present_iff_delimiter(line: Seq<char>)
    requires
        classify(line) is Pair,
    ensures
        classify(line)->Pair_1 is Some <==> trimmed(line).contains('='),
{
    trimmed(line).index_of_first_ensures('=');
}

/// Keys that come before the first header go to the default section: while
/// no line is a header, the default section is the only one.
pub proof fn law_keys_before_headers_go_to_default(lines: Seq<Seq<char>>)
    requires
        forall|i: int|
            0 <= i < lines.len() ==> !is_header(#[trigger] lines[i]) && !unclosed(lines[i]),
    ensures
        run(lines) is Ok,
        run(lines)->Ok_0.current == default_name(),
        run(lines)->Ok_0.doc.dom() == Set::<Seq<char>>::empty().insert(default_name()),
    decreases lines.len(),
{
    if lines.len() > 0 {
        let init = lines.drop_last();
        assert forall|i: int| 0 <= i < init.len() implies !is_header(#[trigger] init[i])
            && !unclosed(init[i]) by {
            assert(init[i] == lines[i]);
        }
        law_keys_before_headers_go_to_default(init);
        assert(!is_header(lines[lines.len() - 1]));
        assert(run(lines)->Ok_0.doc.dom() =~= Set::<Seq<char>>::empty().insert(default_name()));
    } else {
        assert(run(lines)->Ok_0.doc.dom() =~= Set::<Seq<char>>::empty().insert(default_name()));
    }
}

/// Trimming at the start removes a run of whitespace and nothing else, and
/// stops at the first character that is none.
pub proof fn law_trim_start(s: Seq<char>)
    ensures
        ({
            let r = trim_start(s);
            let cut = s.len() - r.len();
            &&& 0 <= cut <= s.len()
            &&& r == s.subrange(cut, s.len() as int)
            &&& forall|i: int| 0 <= i < cut ==> is_space(#[trigger] s[i])
            &&& r.len() > 0 ==> !is_space(r[0])
        }),
    decreases s.len(),
{
    if s.len() > 0 && is_space(s[0]) {
        let rest = s.drop_first();
        law_trim_start(rest);
        let r = trim_start(s);
        let cut = s.len() - r.len();
        assert(r =~= s.subrange(cut, s.len() as int));
        assert forall|i: int| 0 <= i < cut implies is_space(#[trigger] s[i]) by {
            if i > 0 {
                assert(s[i] == rest[i - 1]);
            }
        }
    } else {
        assert(s =~= s.subrange(0, s.len() as int));
    }
}

/// Trimming at the end removes a run of whitespace and nothing else, and
/// stops at the last character that is none.
pub proof fn law_trim_end(s: Seq<char>)
    ensures
        ({
            let r = trim_end(s);
            &&& r.len() <= s.len()
            &&& r == s.subrange(0, r.len() as int)
            &&& forall|i: int| r.len() <= i < s.len() ==> is_space(#[trigger] s[i])
            &&& r.len() > 0 ==> !is_space(r.last())
        }),
    decreases s.len(),
{
    if s.len() > 0 && is_space(s.last()) {
        let rest = s.drop_last();
        law_trim_end(rest);
        let r = trim_end(s);
        assert(r =~= s.subrange(0, r.len() as int));
        assert forall|i: int| r.len() <= i < s.len() implies is_space(#[trigger] s[i]) by {
            if i < rest.len() {
                assert(s[i] == rest[i]);
            }
        }
    } else {
        assert(s =~= s.subrange(0, s.len() as int));
    }
}

/// Trimming keeps one stretch of the sequence as it is, whitespace inside
/// it included; what it leaves out on either side is whitespace, and what
/// it keeps neither starts nor ends with whitespace.
pub proof fn law_trimmed_is_the_inner_stretch(s: Seq<char>)
    ensures
        ({
            let t = trimmed(s);
            let from = s.len() - trim_start(s).len();
            let to = from + t.len();
            &&& 0 <= from <= to <= s.len()
            &&& t == s.subrange(from, to)
            &&& forall|i: int| 0 <= i < from ==> is_space(#[trigger] s[i])
            &&& forall|i: int| to <= i < s.len() ==> is_space(#[trigger] s[i])
            &&& t.len() > 0 ==> !is_space(t[0]) && !is_space(t.last())
        }),
{
    let u = trim_start(s);
    let t = trimmed(s);
    let from = s.len() - u.len();
    let to = from + t.len();
    law_trim_start(s);
    law_trim_end(u);
    assert(t =~= s.subrange(from, to));
    assert forall|i: int| to <= i < s.len() implies is_space(#[trigger] s[i]) by {
        assert(s[i] == u[i - from]);
    }
    if t.len() > 0 {
        assert(t[0] == u[0]);
    }
}

/// Trimming twice is trimming once.
pub proof fn law_trimming_is_idempotent(s: Seq<char>)
    ensures
        trimmed(trimmed(s)) == trimmed(s),
{
    law_trimmed_is_the_inner_stretch(s);
}

/// Whitespace around a line never counts: a line means what it means
/// without it.
pub proof fn law_surrounding_space_is_ignored(line: Seq<char>)
    ensures
        classify(trimmed(line)) == classify(line),
{
    law_trimming_is_idempotent(line);
}

/// Whether one of `lines` is a header named `name`.
pub open spec fn has_header(lines: Seq<Seq<char>>, name: Seq<char>) -> bool {
    exists|i: int| 0 <= i < lines.len() && classify(#[trigger] lines[i]) == LineModel::Header(name)
}

/// Whether one of `lines` gives `key` the value `value`.
pub open spec fn has_pair(lines: Seq<Seq<char>>, key: Seq<char>, value: Option<Seq<char>>) -> bool {
    exists|i: int|
        0 <= i < lines.len() && classify(#[trigger] lines[i]) == LineModel::Pair(key, value)
}

/// Nothing is made up: every section but the default one is named by a
/// header among the lines, and every key stands with its value on one of
/// the lines.
pub proof fn law_entries_come_from_lines(lines: Seq<Seq<char>>)
    requires
        run(lines) is Ok,
    ensures
        ({
            let st = run(lines)->Ok_0;
            &&& st.current == default_name() || has_header(lines, st.current)
            &&& forall|n: Seq<char>| #[trigger]
                st.doc.contains_key(n) ==> n == default_name() || has_header(lines, n)
            &&& forall|n: Seq<char>, k: Seq<char>|
                st.doc.contains_key(n) && #[trigger] st.doc[n].contains_key(k) ==> has_pair(
                    lines,
                    k,
                    st.doc[n][k],
                )
        }),
    decreases lines.len(),
{
    if lines.len() > 0 {
        let init = lines.drop_last();
        let last = lines.len() - 1;
        law_entries_come_from_lines(init);
        lemma_state_sound(init);
        let before = run(init)->Ok_0;
        let st = run(lines)->Ok_0;
        assert forall|n: Seq<char>| has_header(init, n) implies has_header(lines, n) by {
            let i = choose|i: int|
                0 <= i < init.len() && classify(#[trigger] init[i]) == LineModel::Header(n);
            assert(lines[i] == init[i]);
        }
        assert forall|k: Seq<char>, v: Option<Seq<char>>| has_pair(init, k, v) implies has_pair(
            lines,
            k,
            v,
        ) by {
            let i = choose|i: int|
                0 <= i < init.len() && classify(#[trigger] init[i]) == LineModel::Pair(k, v);
            assert(lines[i] == init[i]);
        }
        assert(classify(lines[last]) is Header ==> has_header(lines, st.current));
        assert forall|n: Seq<char>| #[trigger] st.doc.contains_key(n) implies n == default_name()
            || has_header(lines, n) by {
            if !before.doc.contains_key(n) {
                assert(classify(lines[last]) == LineModel::Header(n));
            }
        }
        assert forall|n: Seq<char>, k: Seq<char>|
            st.doc.contains_key(n) && #[trigger] st.doc[n].contains_key(k) implies has_pair(
            lines,
            k,
            st.doc[n][k],
        ) by {
            if before.doc.contains_key(n) && before.doc[n].contains_key(k) && before.doc[n][k]
                == st.doc[n][k] {
                assert(has_pair(init, k, before.doc[n][k]));
            } else {
                assert(classify(lines[last]) == LineModel::Pair(k, st.doc[n][k]));
            }
        }
    }
}

/// Whether `name` is the lower-case form of a sequence that has no
/// whitespace at its ends.
pub open spec fn is_folded_name(name: Seq<char>) -> bool {
    exists|raw: Seq<char>| #[trigger] trimmed(raw) == raw && name == lowercase_of(raw)
}

/// What a line stores is trimmed: a section name and a key are the
/// lower-case forms of trimmed sequences, and a value has no whitespace at
/// its ends.
pub proof fn law_stored_text_is_trimmed(line: Seq<char>)
    ensures
        match classify(line) {
            LineModel::Header(name) => is_folded_name(name),
            LineModel::Pair(key, value) => is_folded_name(key) && match value {
                Some(v) => trimmed(v) == v,
                None => true,
            },
            _ => true,
        },
{
    let t = trimmed(line);
    law_trimming_is_idempotent(line);
    match classify(line) {
        LineModel::Header(name) => {
            let end = t.index_of_last(']')->0;
            let raw = trimmed(t.subrange(1, end));
            law_trimming_is_idempotent(t.subrange(1, end));
            assert(trimmed(raw) == raw && name == lowercase_of(raw));
        },
        LineModel::Pair(key, value) => {
            if value is Some {
                let at = t.index_of_first('=')->0;
                let raw = trimmed(t.subrange(0, at));
                law_trimming_is_idempotent(t.subrange(0, at));
                law_trimming_is_idempotent(t.subrange(at + 1, t.len() as int));
                assert(trimmed(raw) == raw && key == lowercase_of(raw));
            } else {
                assert(trimmed(t) == t && key == lowercase_of(t));
            }
        },
        _ => {},
    }
}

/// A text has one meaning: two documents parsed from the same text are
/// equal as mappings.
pub proof fn law_same_text_same_document(text: Seq<char>, first: Document, second: Document)
    requires
        document_of(text) == Ok::<DocumentModel, ParseError>(first@),
        document_of(text) == Ok::<DocumentModel, ParseError>(second@),
    ensures
        first@ == second@,
{
}

} // verus!
