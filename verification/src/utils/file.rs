//! The text format that the stores are kept in.
//!
//! A file is a run of sections. A section starts with a header line, `[name]`,
//! and goes on with one `key = value` line for each field; blank lines only
//! separate. The key of a field is what stands before the first `=` of its
//! line, the value all that follows it, so that a value may hold `=`.

use crate::utils::sections::{distinct_keys, key_index, lemma_key_index_is, put, Fields, Sections};
use crate::utils::text::{
    blank, chars_of, contains_char, find_char, first_index, has_char, is_blank, is_space,
    is_trimmed, lemma_first_index, lemma_first_index_is, lemma_trim_blank, lemma_trim_padded,
    push_all, slice, string_of, trim, trimmed,
};
use crate::utils::AWSFileManager;
use vstd::prelude::*;

verus! {

/// The fields of a section, as the contracts see them.
pub type FieldSeq = Seq<(Seq<char>, Seq<char>)>;

/// The sections of a file, as the contracts see them.
pub type SectionSeq = Seq<(Seq<char>, Seq<(Seq<char>, Seq<char>)>)>;

/// The name that a header line gives. A header is a line that, white space at
/// its ends apart, starts with `[` and ends with `]`; the name is what stands
/// between the two.
pub open spec fn header_name(line: Seq<char>) -> Option<Seq<char>> {
    let t = trim(line);
    if t.len() >= 2 && t[0] == '[' && t.last() == ']' {
        Some(t.subrange(1, t.len() - 1))
    } else {
        None
    }
}

/// The field that a line with `=` gives: the key is what stands before the
/// first `=`, the value all that follows it, each without the white space at
/// its ends.
pub open spec fn line_field(line: Seq<char>) -> (Seq<char>, Seq<char>) {
    let i = first_index(line, '=');
    (trim(line.take(i)), trim(line.skip(i + 1)))
}

/// What has been read so far: the sections, and the place of the section
/// that the next field line belongs to (-1 before the first header).
pub struct ReadState {
    pub sections: SectionSeq,
    pub current: int,
}

/// The state after one more line.
///
/// A blank line changes nothing. A header makes its section the current one;
/// a name that was seen before takes up the earlier section again, so that the
/// two bodies end up merged. A line without `=`, or one before any header, is
/// skipped. Any other line gives one field, which is stored in the current
/// section.
pub open spec fn line_step(st: ReadState, line: Seq<char>) -> ReadState {
    if is_blank(line) {
        st
    } else if let Some(name) = header_name(line) {
        let i = key_index(st.sections, name);
        if i >= 0 {
            ReadState { sections: st.sections, current: i }
        } else {
            ReadState {
                sections: st.sections.push((name, Seq::empty())),
                current: st.sections.len() as int,
            }
        }
    } else if !has_char(line, '=') || st.current < 0 {
        st
    } else {
        let sec = st.sections[st.current];
        let field = line_field(line);
        ReadState {
            sections: st.sections.update(st.current, (sec.0, put(sec.1, field.0, field.1))),
            current: st.current,
        }
    }
}

/// The state after the lines of `text`, which `\n` ends or separates.
pub open spec fn read_lines(text: Seq<char>, st: ReadState) -> ReadState
    decreases text.len(),
{
    if text.len() == 0 {
        st
    } else {
        let i = first_index(text, '\n');
        let next = line_step(st, text.take(i));
        if i >= text.len() {
            next
        } else {
            proof {
                lemma_first_index(text, '\n');
            }
            read_lines(text.skip(i + 1), next)
        }
    }
}

/// The sections that `text` holds.
pub open spec fn parse_spec(text: Seq<char>) -> SectionSeq {
    read_lines(text, ReadState { sections: Seq::empty(), current: -1 }).sections
}

/// The line of one field.
pub open spec fn field_line(e: (Seq<char>, Seq<char>)) -> Seq<char> {
    e.0 + seq![' ', '=', ' '] + e.1 + seq!['\n']
}

/// The lines of the fields of a section.
pub open spec fn fields_text(f: FieldSeq) -> Seq<char>
    decreases f.len(),
{
    if f.len() == 0 {
        Seq::empty()
    } else {
        fields_text(f.drop_last()) + field_line(f.last())
    }
}

/// The text of one section: header, fields, and a blank line.
pub open spec fn section_text(s: (Seq<char>, FieldSeq)) -> Seq<char> {
    seq!['['] + s.0 + seq![']', '\n'] + fields_text(s.1) + seq!['\n']
}

/// The text of a file.
pub open spec fn serialize_spec(m: SectionSeq) -> Seq<char>
    decreases m.len(),
{
    if m.len() == 0 {
        Seq::empty()
    } else {
        serialize_spec(m.drop_last()) + section_text(m.last())
    }
}

/// The name of the header in `line`, if the line is one.
fn header_of(line: &Vec<char>) -> (r: Option<Vec<char>>)
    ensures
        match r {
            Some(name) => header_name(line@) == Some(name@),
            None => header_name(line@) is None,
        },
{
    let t = trimmed(line);
    let n = t.len();
    if n >= 2 && t[0] == '[' && t[n - 1] == ']' {
        Some(slice(&t, 1, n - 1))
    } else {
        None
    }
}

/// The field that `line` gives.
fn field_of(line: &Vec<char>) -> (r: (String, String))
    requires
        has_char(line@, '='),
    ensures
        (r.0@, r.1@) == line_field(line@),
{
    let i = find_char(line, 0, '=');
    proof {
        assert(line@.skip(0) =~= line@);
        lemma_first_index(line@, '=');
    }
    let head = slice(line, 0, i);
    let tail = slice(line, i + 1, line.len());
    proof {
        assert(line@.take(i as int) =~= head@);
        assert(line@.skip(i + 1) =~= tail@);
    }
    (string_of(&trimmed(&head)), string_of(&trimmed(&tail)))
}

/// Reads one line into `sections`; `current` is the place of the section that
/// field lines belong to, and the result is that place after the line.
fn read_line(sections: &mut Sections, current: Option<usize>, line: &Vec<char>) -> (r: Option<
    usize,
>)
    requires
        current matches Some(c) ==> c < old(sections)@.len(),
    ensures
        r matches Some(c) ==> c < final(sections)@.len(),
        state_at(final(sections)@, r) == line_step(state_at(old(sections)@, current), line@),
        old(sections).wf() ==> final(sections).wf(),
{
    if blank(line) {
        return current;
    }
    match header_of(line) {
        Some(name) => {
            let at = sections.open_section(string_of(&name));
            return Some(at);
        },
        None => {},
    }
    if !contains_char(line, '=') {
        return current;
    }
    match current {
        None => None,
        Some(c) => {
            let (key, value) = field_of(line);
            sections.insert_at(c, key, value);
            Some(c)
        },
    }
}

/// The place that an optional index stands for.
pub open spec fn place(at: Option<usize>) -> int {
    match at {
        Some(c) => c as int,
        None => -1,
    }
}

/// The state that the sections and the current place make up.
pub open spec fn state_at(sections: SectionSeq, at: Option<usize>) -> ReadState {
    ReadState { sections, current: place(at) }
}

/// Reads the text of a file into its sections.
///
/// Nothing in the text is an error: a line that is neither blank, nor a
/// header, nor holds `=` is skipped, and so is a field line before the first
/// header.
pub fn shape_aws_toml(text: &str) -> (r: Sections)
    ensures
        r@ == parse_spec(text@),
        r.wf(),
{
    let chars = chars_of(text);
    let n = chars.len();
    let mut sections = Sections::new();
    let mut current: Option<usize> = None;
    let mut pos: usize = 0;
    let ghost start = ReadState { sections: Seq::empty(), current: -1 };
    proof {
        assert(text@.skip(0) =~= text@);
    }
    while pos < n
        invariant
            pos <= n == chars.len(),
            chars@ == text@,
            current matches Some(c) ==> c < sections@.len(),
            sections.wf(),
            read_lines(text@, start) == read_lines(
                text@.skip(pos as int),
                state_at(sections@, current),
            ),
        decreases n - pos,
    {
        let end = find_char(&chars, pos, '\n');
        let line = slice(&chars, pos, end);
        let ghost rest = text@.skip(pos as int);
        proof {
            assert(rest.take(end - pos) =~= line@);
            if end < n {
                assert(rest.skip(end - pos + 1) =~= text@.skip(end + 1));
            }
        }
        current = read_line(&mut sections, current, &line);
        if end < n {
            pos = end + 1;
        } else {
            pos = n;
            proof {
                assert(text@.skip(n as int).len() == 0);
            }
        }
    }
    sections
}

/// Appends the lines of the fields of a section.
fn write_fields(out: &mut Vec<char>, fields: &Fields)
    ensures
        final(out)@ == old(out)@ + fields_text(fields@),
{
    let mut i: usize = 0;
    proof {
        assert(fields@.take(0) =~= Seq::empty());
        assert(old(out)@ + fields_text(fields@.take(0)) =~= old(out)@);
    }
    while i < fields.entries.len()
        invariant
            i <= fields.entries.len(),
            out@ == old(out)@ + fields_text(fields@.take(i as int)),
        decreases fields.entries.len() - i,
    {
        let ghost before = out@;
        let k = chars_of(fields.entries[i].0.as_str());
        let v = chars_of(fields.entries[i].1.as_str());
        push_all(out, &k);
        out.push(' ');
        out.push('=');
        out.push(' ');
        push_all(out, &v);
        out.push('\n');
        proof {
            let e = fields@[i as int];
            assert(out@ =~= before + field_line(e));
            let t = fields@.take(i + 1);
            assert(t.drop_last() =~= fields@.take(i as int));
            assert(t.last() == e);
            assert(old(out)@ + fields_text(t) =~= before + field_line(e));
        }
        i += 1;
    }
    proof {
        assert(fields@.take(fields@.len() as int) =~= fields@);
    }
}

/// The store that the text of its file gives, or `None` where the sections of
/// the text cannot be read as such a store.
pub fn read<T, S>(text: &str) -> (r: Option<T>) where T: AWSFileManager<S>
    ensures
        r is Some <==> T::loadable(parse_spec(text@)),
        r matches Some(store) ==> store.loaded_from(parse_spec(text@)),
{
    let val = shape_aws_toml(text);
    if T::can_load(&val) {
        Some(T::new(val))
    } else {
        None
    }
}

/// The text of a file that holds `data`: for each section its header, one
/// line for each field, and a blank line.
pub fn write(data: &Sections) -> (r: String)
    ensures
        r@ == serialize_spec(data@),
{
    let mut out: Vec<char> = Vec::new();
    let mut i: usize = 0;
    proof {
        assert(data@.take(0) =~= Seq::empty());
    }
    while i < data.entries.len()
        invariant
            i <= data.entries.len(),
            out@ == serialize_spec(data@.take(i as int)),
        decreases data.entries.len() - i,
    {
        let ghost before = out@;
        let name = chars_of(data.entries[i].0.as_str());
        out.push('[');
        push_all(&mut out, &name);
        out.push(']');
        out.push('\n');
        write_fields(&mut out, &data.entries[i].1);
        out.push('\n');
        proof {
            let s = data@[i as int];
            assert(out@ =~= before + section_text(s));
            let t = data@.take(i + 1);
            assert(t.drop_last() =~= data@.take(i as int));
            assert(t.last() == s);
        }
        i += 1;
    }
    proof {
        assert(data@.take(data@.len() as int) =~= data@);
    }
    string_of(&out)
}

/// A field that a file gives back as it was written: neither part holds a line
/// break or has white space at its ends, the key holds no `=`, and the line of
/// the two is no header, which it would be if the key started with `[` and
/// the value ended with `]`.
pub open spec fn field_ok(e: (Seq<char>, Seq<char>)) -> bool {
    &&& !has_char(e.0, '\n') && !has_char(e.0, '=')
    &&& is_trimmed(e.0)
    &&& !has_char(e.1, '\n')
    &&& is_trimmed(e.1)
    &&& !(e.0.len() > 0 && e.1.len() > 0 && e.0[0] == '[' && e.1.last() == ']')
}

/// Sections that a file gives back as they were written: no name and no key
/// occurs twice, no name holds a line break, and every field is `field_ok`.
pub open spec fn writable(m: SectionSeq) -> bool {
    &&& distinct_keys(m)
    &&& forall|i: int|
        0 <= i < m.len() ==> {
            &&& !has_char((#[trigger] m[i]).0, '\n')
            &&& distinct_keys(m[i].1)
            &&& forall|j: int| 0 <= j < m[i].1.len() ==> field_ok(#[trigger] m[i].1[j])
        }
}

/// One line and its break are read as that line.
proof fn lemma_read_one_line(line: Seq<char>, rest: Seq<char>, st: ReadState)
    requires
        !has_char(line, '\n'),
    ensures
        read_lines(line + seq!['\n'] + rest, st) == read_lines(rest, line_step(st, line)),
{
    let text = line + seq!['\n'] + rest;
    let n = line.len() as int;
    assert forall|j: int| 0 <= j < n implies #[trigger] text[j] != '\n' by {
        assert(text[j] == line[j]);
    }
    assert(text[n] == '\n');
    lemma_first_index_is(text, '\n', n);
    assert(text.take(n) =~= line);
    assert(text.skip(n + 1) =~= rest);
}

/// The line of a field reads as that field and as nothing else.
proof fn lemma_field_line(e: (Seq<char>, Seq<char>))
    requires
        field_ok(e),
    ensures
        ({
            let line = e.0 + seq![' ', '=', ' '] + e.1;
            &&& !has_char(line, '\n')
            &&& !is_blank(line)
            &&& header_name(line) is None
            &&& has_char(line, '=')
            &&& line_field(line) == e
        }),
{
    let k = e.0;
    let v = e.1;
    let line = k + seq![' ', '=', ' '] + v;
    let n = k.len() as int;
    let pad = seq![' '];
    let none = Seq::<char>::empty();
    assert(is_blank(pad));
    assert(is_blank(none));
    assert(line[n + 1] == '=');
    assert(!is_space(line[n + 1]));
    assert forall|j: int| 0 <= j < line.len() implies #[trigger] line[j] != '\n' by {
        if j < n {
            assert(line[j] == k[j]);
        } else if j >= n + 3 {
            assert(line[j] == v[j - n - 3]);
        }
    }
    assert forall|j: int| 0 <= j < n + 1 implies #[trigger] line[j] != '=' by {
        if j < n {
            assert(line[j] == k[j]);
        }
    }
    lemma_first_index_is(line, '=', n + 1);
    assert(line.take(n + 1) =~= none + k + pad);
    if n > 0 {
        lemma_trim_padded(none, k, pad);
    } else {
        assert(none + k + pad =~= pad);
        lemma_trim_blank(pad);
        assert(k =~= none);
    }
    assert(line.skip(n + 2) =~= pad + v + none);
    lemma_trim_padded(pad, v, none);
    if n > 0 && v.len() > 0 {
        assert(line[0] == k[0]);
        assert(line.last() == v.last());
        assert(none + line + none =~= line);
        lemma_trim_padded(none, line, none);
    } else if v.len() > 0 {
        let body = seq!['=', ' '] + v;
        assert(body.last() == v.last());
        assert(pad + body + none =~= line);
        lemma_trim_padded(pad, body, none);
        assert(trim(line)[0] == '=');
    } else if n > 0 {
        let body = k + seq![' ', '='];
        assert(body[0] == k[0]);
        assert(none + body + pad =~= line);
        lemma_trim_padded(none, body, pad);
        assert(trim(line).last() == '=');
    } else {
        let body = seq!['='];
        assert(pad + body + pad =~= line);
        lemma_trim_padded(pad, body, pad);
    }
}

/// The state in which the section at place `at` has the fields `fields`.
pub open spec fn with_fields(st: ReadState, at: int, fields: FieldSeq) -> ReadState {
    ReadState { sections: st.sections.update(at, (st.sections[at].0, fields)), current: at }
}

/// The lines of fields with new keys are read as those fields, in their order.
proof fn lemma_read_fields(
    st: ReadState,
    first: FieldSeq,
    more: FieldSeq,
    rest: Seq<char>,
)
    requires
        0 <= st.current < st.sections.len(),
        st.sections[st.current].1 == first,
        distinct_keys(first + more),
        forall|j: int| 0 <= j < more.len() ==> field_ok(#[trigger] more[j]),
    ensures
        read_lines(fields_text(more) + rest, st) == read_lines(
            rest,
            with_fields(st, st.current, first + more),
        ),
    decreases more.len(),
{
    let at = st.current;
    if more.len() == 0 {
        assert(fields_text(more) + rest =~= rest);
        assert(first + more =~= first);
        assert(with_fields(st, at, first).sections =~= st.sections);
    } else {
        let init = more.drop_last();
        let e = more.last();
        let line = e.0 + seq![' ', '=', ' '] + e.1;
        let all = first + more;
        assert(first + init =~= all.drop_last());
        assert(distinct_keys(first + init)) by {
            assert forall|a: int, b: int| 0 <= a < b < (first + init).len() implies (#[trigger] (
            first + init)[a]).0 != (#[trigger] (first + init)[b]).0 by {
                assert(all[a].0 != all[b].0);
            }
        }
        assert forall|j: int| 0 <= j < init.len() implies field_ok(#[trigger] init[j]) by {
            assert(init[j] == more[j]);
        }
        assert(fields_text(more) + rest =~= fields_text(init) + (field_line(e) + rest));
        lemma_read_fields(st, first, init, field_line(e) + rest);
        let mid = with_fields(st, at, first + init);
        assert(field_ok(more[more.len() - 1]));
        lemma_field_line(e);
        assert(field_line(e) + rest =~= line + seq!['\n'] + rest);
        lemma_read_one_line(line, rest, mid);
        let have = first + init;
        assert forall|j: int| 0 <= j < have.len() implies (#[trigger] have[j]).0 != e.0 by {
            assert(all[j].0 != all[all.len() - 1].0);
        }
        lemma_key_index_is(have, e.0, -1);
        assert(have.push(e) =~= all);
        assert(line_step(mid, line).sections =~= with_fields(st, at, all).sections);
    }
}

/// The text of a section with a new name is read as that section.
proof fn lemma_read_section(st: ReadState, s: (Seq<char>, FieldSeq), rest: Seq<char>)
    requires
        key_index(st.sections, s.0) < 0,
        !has_char(s.0, '\n'),
        distinct_keys(s.1),
        forall|j: int| 0 <= j < s.1.len() ==> field_ok(#[trigger] s.1[j]),
    ensures
        read_lines(section_text(s) + rest, st) == read_lines(
            rest,
            ReadState { sections: st.sections.push(s), current: st.sections.len() as int },
        ),
{
    let header = seq!['['] + s.0 + seq![']'];
    let n = s.0.len() as int;
    let none = Seq::<char>::empty();
    let nothing = Seq::<(Seq<char>, Seq<char>)>::empty();
    assert(header[0] == '[');
    assert(header[n + 1] == ']');
    assert forall|j: int| 0 <= j < header.len() implies #[trigger] header[j] != '\n' by {
        if 0 < j <= n {
            assert(header[j] == s.0[j - 1]);
        }
    }
    assert(section_text(s) + rest =~= header + seq!['\n'] + (fields_text(s.1) + seq!['\n']
        + rest));
    lemma_read_one_line(header, fields_text(s.1) + seq!['\n'] + rest, st);
    assert(!is_space(header[0]));
    assert(!is_space(header.last()));
    assert(none + header + none =~= header);
    lemma_trim_padded(none, header, none);
    assert(header.subrange(1, n + 1) =~= s.0);
    let opened = ReadState {
        sections: st.sections.push((s.0, nothing)),
        current: st.sections.len() as int,
    };
    assert(line_step(st, header) == opened);
    assert(nothing + s.1 =~= s.1);
    lemma_read_fields(opened, nothing, s.1, seq!['\n'] + rest);
    let filled = with_fields(opened, opened.current, s.1);
    assert(fields_text(s.1) + seq!['\n'] + rest =~= fields_text(s.1) + (seq!['\n'] + rest));
    assert(seq!['\n'] + rest =~= none + seq!['\n'] + rest);
    assert(is_blank(none));
    lemma_read_one_line(none, rest, filled);
    assert(filled.sections =~= st.sections.push(s));
}

/// The state after all of `m` was read.
pub open spec fn read_all(m: SectionSeq) -> ReadState {
    ReadState { sections: m, current: m.len() - 1 }
}

proof fn lemma_read_sections(m: SectionSeq, rest: Seq<char>)
    requires
        writable(m),
    ensures
        read_lines(serialize_spec(m) + rest, read_all(Seq::empty())) == read_lines(
            rest,
            read_all(m),
        ),
    decreases m.len(),
{
    if m.len() == 0 {
        assert(serialize_spec(m) + rest =~= rest);
        assert(m =~= Seq::empty());
    } else {
        let init = m.drop_last();
        let s = m.last();
        assert(writable(init)) by {
            assert forall|a: int, b: int| 0 <= a < b < init.len() implies (#[trigger] init[a]).0
                != (#[trigger] init[b]).0 by {
                assert(m[a].0 != m[b].0);
            }
            assert forall|i: int| 0 <= i < init.len() implies {
                &&& !has_char((#[trigger] init[i]).0, '\n')
                &&& distinct_keys(init[i].1)
                &&& forall|j: int| 0 <= j < init[i].1.len() ==> field_ok(#[trigger] init[i].1[j])
            } by {
                assert(init[i] == m[i]);
            }
        }
        assert(serialize_spec(m) + rest =~= serialize_spec(init) + (section_text(s) + rest));
        lemma_read_sections(init, section_text(s) + rest);
        assert(m[m.len() - 1] == s);
        assert forall|j: int| 0 <= j < init.len() implies (#[trigger] init[j]).0 != s.0 by {
            assert(m[j].0 != m[m.len() - 1].0);
        }
        lemma_key_index_is(init, s.0, -1);
        lemma_read_section(read_all(init), s, rest);
        assert(init.push(s) =~= m);
    }
}

/// Writing sections and reading the text again gives the same sections, with
/// every name, key and value as it was and in the same order, if the sections
/// are `writable`. A value may hold `=`, `;` and white space between its ends.
pub proof fn lemma_round_trip(m: SectionSeq)
    requires
        writable(m),
    ensures
        parse_spec(serialize_spec(m)) == m,
{
    let none = Seq::<char>::empty();
    lemma_read_sections(m, none);
    assert(serialize_spec(m) + none =~= serialize_spec(m));
}

} // verus!
