//! A parser for the subset of gettext PO files that holds plain
//! `msgid`/`msgstr` pairs. It works line by line as a state machine; the
//! spec functions below state that machine, and the executable code is
//! proved to follow it.
use vstd::prelude::*;
use vstd::utf8::*;
use vstd::string::StringExecFns;
use crate::text::{decode_utf8_chars, push_char, push_decimal, push_str, str_chars, starts_with};

verus! {

// ---------------------------------------------------------------------------
// C string literals
// ---------------------------------------------------------------------------

/// The character an escape sequence `\c` stands for, if `c` is supported.
pub open spec fn escaped_char(c: char) -> Option<char> {
    if c == 'a' { Some('\u{7}') }
    else if c == 'b' { Some('\u{8}') }
    else if c == 'f' { Some('\u{c}') }
    else if c == 'n' { Some('\n') }
    else if c == 't' { Some('\t') }
    else if c == 'v' { Some('\u{b}') }
    else if c == '"' { Some('"') }
    else if c == '\\' { Some('\\') }
    else { None }
}

/// Prepends `prefix` to a successful result and keeps an error as it is.
pub open spec fn prepend_ok(prefix: Seq<char>, r: Result<Seq<char>, Seq<char>>) -> Result<Seq<char>, Seq<char>> {
    match r {
        Ok(s) => Ok(prefix + s),
        Err(e) => Err(e),
    }
}

/// The content of a C string literal between its delimiting quotes, with
/// its escape sequences resolved, or the first problem found reading it
/// from the left.
pub open spec fn unescape(s: Seq<char>) -> Result<Seq<char>, Seq<char>>
    decreases s.len(),
{
    if s.len() == 0 {
        Ok(Seq::empty())
    } else if s[0] == '"' {
        Err("Unescaped double quote appeared in string literal before it was supposed to end."@)
    } else if s[0] == '\\' {
        if s.len() == 1 {
            Err("Unterminated escape at the end of the string."@)
        } else {
            match escaped_char(s[1]) {
                None => Err("Unsupported escaped character: "@.push(s[1])),
                Some(c) => prepend_ok(seq![c], unescape(s.skip(2))),
            }
        }
    } else {
        prepend_ok(seq![s[0]], unescape(s.skip(1)))
    }
}

/// What reading `lit` as a double-quoted C string literal gives.
pub open spec fn c_string_literal(lit: Seq<char>) -> Result<Seq<char>, Seq<char>> {
    if lit.len() == 0 {
        Err("Expected double-quote delimited string literal, but got nothing."@)
    } else if lit[0] != '"' {
        Err("Expected double quote at start of string literal but got '"@.push(lit[0]) + "'"@)
    } else if lit.len() == 1 {
        Err("Expected double-quote at the end of a string literal, but got nothing."@)
    } else if lit.last() != '"' {
        Err("Expected double quote at end of string literal but got '"@.push(lit.last()) + "'"@)
    } else {
        unescape(lit.subrange(1, lit.len() - 1))
    }
}

fn escaped_char_exec(c: char) -> (r: Option<char>)
    ensures
        r == escaped_char(c),
{
    if c == 'a' { Some('\u{7}') }
    else if c == 'b' { Some('\u{8}') }
    else if c == 'f' { Some('\u{c}') }
    else if c == 'n' { Some('\n') }
    else if c == 't' { Some('\t') }
    else if c == 'v' { Some('\u{b}') }
    else if c == '"' { Some('"') }
    else if c == '\\' { Some('\\') }
    else { None }
}

fn unescape_chars(s: &[char], from: usize, to: usize) -> (r: Result<String, String>)
    requires
        from <= to <= s@.len(),
    ensures
        match r {
            Ok(v) => unescape(s@.subrange(from as int, to as int)) == Ok::<Seq<char>, Seq<char>>(v@),
            Err(e) => unescape(s@.subrange(from as int, to as int)) == Err::<Seq<char>, Seq<char>>(e@),
        },
{
    let ghost body = s@.subrange(from as int, to as int);
    let mut out = String::new();
    let mut i: usize = from;
    while i < to
        invariant
            from <= i <= to <= s@.len(),
            body == s@.subrange(from as int, to as int),
            unescape(body) == prepend_ok(out@, unescape(s@.subrange(i as int, to as int))),
        decreases to - i,
    {
        let ghost rest = s@.subrange(i as int, to as int);
        let c = s[i];
        if c == '"' {
            let e = "Unescaped double quote appeared in string literal before it was supposed to end.".to_owned();
            return Err(e);
        } else if c == '\\' {
            if i + 1 == to {
                let e = "Unterminated escape at the end of the string.".to_owned();
                return Err(e);
            }
            let d = s[i + 1];
            match escaped_char_exec(d) {
                None => {
                    let mut e = "Unsupported escaped character: ".to_owned();
                    push_char(&mut e, d);
                    return Err(e);
                },
                Some(x) => {
                    assert(rest.skip(2) =~= s@.subrange(i + 2, to as int));
                    let ghost old_out = out@;
                    push_char(&mut out, x);
                    i = i + 2;
                    proof {
                        lemma_prepend_push(old_out, x, unescape(s@.subrange(i as int, to as int)));
                    }
                },
            }
        } else {
            assert(rest.skip(1) =~= s@.subrange(i + 1, to as int));
            let ghost old_out = out@;
            push_char(&mut out, c);
            i = i + 1;
            proof {
                lemma_prepend_push(old_out, c, unescape(s@.subrange(i as int, to as int)));
            }
        }
    }
    assert(s@.subrange(i as int, to as int) =~= Seq::<char>::empty());
    assert(out@ + Seq::<char>::empty() =~= out@);
    Ok(out)
}

proof fn lemma_prepend_push(out: Seq<char>, x: char, r: Result<Seq<char>, Seq<char>>)
    ensures
        prepend_ok(out, prepend_ok(seq![x], r)) == prepend_ok(out.push(x), r),
{
    match r {
        Ok(v) => {
            assert(out + (seq![x] + v) =~= out.push(x) + v);
        },
        Err(_) => {},
    }
}


/// Reads a double-quoted C string literal: the text between the quotes with
/// the escapes `\a \b \f \n \t \v \" \\` resolved, or what is wrong with it.
pub fn parse_c_string_literal(literal: &str) -> (r: Result<String, String>)
    ensures
        match r {
            Ok(v) => c_string_literal(literal@) == Ok::<Seq<char>, Seq<char>>(v@),
            Err(e) => c_string_literal(literal@) == Err::<Seq<char>, Seq<char>>(e@),
        },
{
    let chars = str_chars(literal);
    c_string_literal_chars(&chars)
}

fn c_string_literal_chars(chars: &[char]) -> (r: Result<String, String>)
    ensures
        match r {
            Ok(v) => c_string_literal(chars@) == Ok::<Seq<char>, Seq<char>>(v@),
            Err(e) => c_string_literal(chars@) == Err::<Seq<char>, Seq<char>>(e@),
        },
{
    let n = chars.len();
    if n == 0 {
        return Err("Expected double-quote delimited string literal, but got nothing.".to_owned());
    }
    let first = chars[0];
    if first != '"' {
        let mut e = "Expected double quote at start of string literal but got '".to_owned();
        push_char(&mut e, first);
        push_str(&mut e, "'");
        return Err(e);
    }
    if n == 1 {
        return Err("Expected double-quote at the end of a string literal, but got nothing.".to_owned());
    }
    let last = chars[n - 1];
    if last != '"' {
        let mut e = "Expected double quote at end of string literal but got '".to_owned();
        push_char(&mut e, last);
        push_str(&mut e, "'");
        return Err(e);
    }
    unescape_chars(chars, 1, n - 1)
}

// ---------------------------------------------------------------------------
// Kinds of lines
// ---------------------------------------------------------------------------

/// What a single line of a PO file is. `S` is `String` in executable code
/// and `Seq<char>` in specifications.
pub enum LineType<S> {
    /// An empty line or a comment.
    Ignored,
    /// `msgid "..."`, with the parsed literal.
    MsgidStart(S),
    /// `msgstr "..."`, with the parsed literal.
    MsgstrStart(S),
    /// A lone string literal continuing the previous `msgid` or `msgstr`.
    QuotedString(S),
    /// Valid PO syntax that this parser does not handle, with the reason.
    Unsupported(S),
    /// A line that cannot be read, with the reason.
    Invalid(S),
}

impl View for LineType<String> {
    type V = LineType<Seq<char>>;

    open spec fn view(&self) -> LineType<Seq<char>> {
        match self {
            LineType::Ignored => LineType::Ignored,
            LineType::MsgidStart(s) => LineType::MsgidStart(s@),
            LineType::MsgstrStart(s) => LineType::MsgstrStart(s@),
            LineType::QuotedString(s) => LineType::QuotedString(s@),
            LineType::Unsupported(s) => LineType::Unsupported(s@),
            LineType::Invalid(s) => LineType::Invalid(s@),
        }
    }
}

/// The kind of a line, judged by its first characters.
pub open spec fn line_type(line: Seq<char>) -> LineType<Seq<char>> {
    if line.len() == 0 || line[0] == '#' {
        LineType::Ignored
    } else if "msgctxt "@.is_prefix_of(line) {
        LineType::Unsupported("msgctxt is not supported."@)
    } else if "msgid_plural "@.is_prefix_of(line) {
        LineType::Unsupported("msgid_plural is not supported."@)
    } else if "msgstr["@.is_prefix_of(line) {
        LineType::Unsupported("Indexed msgstr is not supported."@)
    } else if "msgid "@.is_prefix_of(line) {
        match c_string_literal(line.skip("msgid "@.len() as int)) {
            Ok(s) => LineType::MsgidStart(s),
            Err(e) => LineType::Invalid(
                "Expected C-style string literal after 'msgid ', but failed to parse one: "@ + e,
            ),
        }
    } else if "msgstr "@.is_prefix_of(line) {
        match c_string_literal(line.skip("msgstr "@.len() as int)) {
            Ok(s) => LineType::MsgstrStart(s),
            Err(e) => LineType::Invalid(
                "Expected C-style string literal after 'msgstr ', but failed to parse one: "@ + e,
            ),
        }
    } else if line[0] == '"' {
        match c_string_literal(line) {
            Ok(s) => LineType::QuotedString(s),
            Err(e) => LineType::Invalid("Expected C-style string literal, but failed to parse one: "@ + e),
        }
    } else {
        LineType::Invalid("Line did not match the expected format."@)
    }
}

fn skip_chars(v: &[char], k: usize) -> (r: Vec<char>)
    requires
        k <= v@.len(),
    ensures
        r@ == v@.skip(k as int),
{
    let mut r: Vec<char> = Vec::new();
    let mut i = k;
    while i < v.len()
        invariant
            k <= i <= v@.len(),
            r@ == v@.subrange(k as int, i as int),
        decreases v@.len() - i,
    {
        r.push(v[i]);
        i = i + 1;
        assert(r@ =~= v@.subrange(k as int, i as int));
    }
    assert(v@.skip(k as int) =~= v@.subrange(k as int, i as int));
    r
}

/// Classifies one line of a PO file.
pub fn determine_line_type(line: &str) -> (t: LineType<String>)
    ensures
        t@ == line_type(line@),
{
    let chars = str_chars(line);
    line_type_chars(&chars)
}

fn line_type_chars(line: &[char]) -> (t: LineType<String>)
    ensures
        t@ == line_type(line@),
{
    if line.len() == 0 || line[0] == '#' {
        return LineType::Ignored;
    }
    if starts_with(line, "msgctxt ") {
        return LineType::Unsupported("msgctxt is not supported.".to_owned());
    }
    if starts_with(line, "msgid_plural ") {
        return LineType::Unsupported("msgid_plural is not supported.".to_owned());
    }
    if starts_with(line, "msgstr[") {
        return LineType::Unsupported("Indexed msgstr is not supported.".to_owned());
    }
    if starts_with(line, "msgid ") {
        let prefix_len = str_chars("msgid ").len();
        let rest = skip_chars(line, prefix_len);
        return match c_string_literal_chars(&rest) {
            Ok(s) => LineType::MsgidStart(s),
            Err(e) => {
                let mut m = "Expected C-style string literal after 'msgid ', but failed to parse one: ".to_owned();
                push_str(&mut m, e.as_str());
                LineType::Invalid(m)
            },
        };
    }
    if starts_with(line, "msgstr ") {
        let prefix_len = str_chars("msgstr ").len();
        let rest = skip_chars(line, prefix_len);
        return match c_string_literal_chars(&rest) {
            Ok(s) => LineType::MsgstrStart(s),
            Err(e) => {
                let mut m = "Expected C-style string literal after 'msgstr ', but failed to parse one: ".to_owned();
                push_str(&mut m, e.as_str());
                LineType::Invalid(m)
            },
        };
    }
    if line[0] == '"' {
        return match c_string_literal_chars(line) {
            Ok(s) => LineType::QuotedString(s),
            Err(e) => {
                let mut m = "Expected C-style string literal, but failed to parse one: ".to_owned();
                push_str(&mut m, e.as_str());
                LineType::Invalid(m)
            },
        };
    }
    LineType::Invalid("Line did not match the expected format.".to_owned())
}


// ---------------------------------------------------------------------------
// The parsing state machine
// ---------------------------------------------------------------------------

/// Where the parser stands between lines. `S` is `String` in executable code
/// and `Seq<char>` in specifications.
pub enum EntryState<S> {
    /// Between entries: a new entry may start.
    WaitingForEntry,
    /// A `msgid` has been read (possibly over several lines).
    StartedMsgid(S),
    /// A `msgid` and the `msgstr` after it have been read.
    StartedMsgstr(S, S),
}

impl View for EntryState<String> {
    type V = EntryState<Seq<char>>;

    open spec fn view(&self) -> EntryState<Seq<char>> {
        match self {
            EntryState::WaitingForEntry => EntryState::WaitingForEntry,
            EntryState::StartedMsgid(m) => EntryState::StartedMsgid(m@),
            EntryState::StartedMsgstr(m, s) => EntryState::StartedMsgstr(m@, s@),
        }
    }
}

impl EntryState<String> {
    /// A copy of the state.
    pub fn copied(&self) -> (r: Self)
        ensures
            r@ == self@,
    {
        match self {
            EntryState::WaitingForEntry => EntryState::WaitingForEntry,
            EntryState::StartedMsgid(m) => EntryState::StartedMsgid(m.clone()),
            EntryState::StartedMsgstr(m, s) => EntryState::StartedMsgstr(m.clone(), s.clone()),
        }
    }
}

/// The model of a parser state: the current entry, the entries found so far
/// in the order they were first found, and the number of lines read.
pub struct PoState {
    pub entry_state: EntryState<Seq<char>>,
    pub entries: Seq<(Seq<char>, Seq<char>)>,
    pub line_number: nat,
}

/// The state before any line is read.
pub open spec fn initial_state() -> PoState {
    PoState { entry_state: EntryState::WaitingForEntry, entries: Seq::empty(), line_number: 0 }
}

/// The view of a list of `(msgid, msgstr)` pairs.
pub open spec fn pairs_view(v: Seq<(String, String)>) -> Seq<(Seq<char>, Seq<char>)> {
    v.map_values(|p: (String, String)| (p.0@, p.1@))
}

/// The position of the last entry with the given msgid, or -1.
pub open spec fn key_position(entries: Seq<(Seq<char>, Seq<char>)>, key: Seq<char>) -> int
    decreases entries.len(),
{
    if entries.len() == 0 {
        -1
    } else if entries.last().0 == key {
        entries.len() - 1
    } else {
        key_position(entries.drop_last(), key)
    }
}

/// The entries after recording `(key, value)`: a known msgid gets the new
/// value, a new one is appended.
pub open spec fn entries_with(entries: Seq<(Seq<char>, Seq<char>)>, key: Seq<char>, value: Seq<char>) -> Seq<(Seq<char>, Seq<char>)> {
    let i = key_position(entries, key);
    if i < 0 {
        entries.push((key, value))
    } else {
        entries.update(i, (key, value))
    }
}

/// The complaint about recording `(key, value)`, if the msgid is known.
pub open spec fn duplicate_error(entries: Seq<(Seq<char>, Seq<char>)>, key: Seq<char>, value: Seq<char>) -> Option<Seq<char>> {
    let i = key_position(entries, key);
    if i < 0 {
        None
    } else {
        Some("Duplicate msgid '"@ + key + "'. First translated as "@ + entries[i].1 + ", then as "@ + value)
    }
}

/// `line N`, the start of most messages about a line.
pub open spec fn at_line(n: nat) -> Seq<char> {
    "line "@ + crate::text::decimal(n)
}

/// What reading one more line does to the state, and the error it raises, if
/// any. The line counter always advances.
pub open spec fn add_line_spec(st: PoState, line: Seq<char>) -> (PoState, Option<Seq<char>>) {
    let n = st.line_number + 1;
    let counted = PoState { entry_state: st.entry_state, entries: st.entries, line_number: n };
    match line_type(line) {
        LineType::Ignored => match st.entry_state {
            EntryState::WaitingForEntry => (counted, None),
            EntryState::StartedMsgid(id) => (
                counted,
                Some(at_line(n) + ", msgid \""@ + id + "\": msgid must be directly followed by msgstr."@),
            ),
            EntryState::StartedMsgstr(id, s) => {
                let entries = entries_with(st.entries, id, s);
                match duplicate_error(st.entries, id, s) {
                    Some(e) => (
                        PoState { entry_state: st.entry_state, entries, line_number: n },
                        Some(at_line(n) + ": "@ + e),
                    ),
                    None => (PoState { entry_state: EntryState::WaitingForEntry, entries, line_number: n }, None),
                }
            },
        },
        LineType::MsgidStart(m) => match st.entry_state {
            EntryState::WaitingForEntry => (
                PoState { entry_state: EntryState::StartedMsgid(m), entries: st.entries, line_number: n },
                None,
            ),
            EntryState::StartedMsgid(second) => (
                counted,
                Some(at_line(n) + ": two consecutive msgids: \""@ + m + "\" and \""@ + second + "\""@),
            ),
            EntryState::StartedMsgstr(id, s) => {
                let entries = entries_with(st.entries, id, s);
                match duplicate_error(st.entries, id, s) {
                    Some(e) => (
                        PoState { entry_state: st.entry_state, entries, line_number: n },
                        Some(at_line(n) + ": "@ + e),
                    ),
                    None => (PoState { entry_state: EntryState::StartedMsgid(m), entries, line_number: n }, None),
                }
            },
        },
        LineType::MsgstrStart(s) => match st.entry_state {
            EntryState::WaitingForEntry => (
                counted,
                Some(at_line(n) + ": msgstr \""@ + s + "\" without preceding msgid."@),
            ),
            EntryState::StartedMsgid(id) => (
                PoState { entry_state: EntryState::StartedMsgstr(id, s), entries: st.entries, line_number: n },
                None,
            ),
            EntryState::StartedMsgstr(id, first) => (
                counted,
                Some(at_line(n) + ": two consecutive msgstrs for msgid \""@ + id + "\": \""@ + first + "\" and \""@ + s + "\""@),
            ),
        },
        LineType::QuotedString(q) => match st.entry_state {
            EntryState::WaitingForEntry => (
                counted,
                Some(at_line(n) + ": string literal not part of a msgid or msgstr: \""@ + q + "\""@),
            ),
            EntryState::StartedMsgid(id) => (
                PoState { entry_state: EntryState::StartedMsgid(id + q), entries: st.entries, line_number: n },
                None,
            ),
            EntryState::StartedMsgstr(id, s) => (
                PoState { entry_state: EntryState::StartedMsgstr(id, s + q), entries: st.entries, line_number: n },
                None,
            ),
        },
        LineType::Unsupported(e) => (counted, Some("Unsupported syntax found in line "@ + crate::text::decimal(n) + ": "@ + e)),
        LineType::Invalid(e) => (counted, Some("Invalid syntax found in line "@ + crate::text::decimal(n) + ": "@ + e)),
    }
}

/// What finishing a state gives: the entries, or the complaint about an
/// entry left open.
pub open spec fn finish_spec(st: PoState) -> Result<Seq<(Seq<char>, Seq<char>)>, Seq<char>> {
    match st.entry_state {
        EntryState::WaitingForEntry => Ok(st.entries),
        EntryState::StartedMsgid(id) => Err("Trailing msgid '"@ + id + "' without corresponding msgstr."@),
        EntryState::StartedMsgstr(id, s) => match duplicate_error(st.entries, id, s) {
            Some(e) => Err(e),
            None => Ok(entries_with(st.entries, id, s)),
        },
    }
}

/// The state of the line-by-line PO parser.
pub struct ParsingState {
    entry_state: EntryState<String>,
    entries: Vec<(String, String)>,
    line_number: usize,
}

impl View for ParsingState {
    type V = PoState;

    closed spec fn view(&self) -> PoState {
        PoState { entry_state: self.entry_state@, entries: pairs_view(self.entries@), line_number: self.line_number as nat }
    }
}

fn line_start(n: usize) -> (s: String)
    ensures
        s@ == at_line(n as nat),
{
    let mut s = "line ".to_owned();
    push_decimal(&mut s, n);
    s
}

impl ParsingState {
    /// A parser that has read nothing.
    pub fn new() -> (s: Self)
        ensures
            s@ == initial_state(),
    {
        let s = ParsingState { entry_state: EntryState::WaitingForEntry, entries: Vec::new(), line_number: 0 };
        assert(pairs_view(s.entries@) =~= Seq::<(Seq<char>, Seq<char>)>::empty());
        s
    }

    /// Whether an entry has been completed.
    pub fn has_entry(&self) -> (b: bool)
        ensures
            b == (self@.entries.len() > 0),
    {
        !self.entries.is_empty()
    }

    /// The number of lines read so far.
    pub fn line_number(&self) -> (n: usize)
        ensures
            n == self@.line_number,
    {
        self.line_number
    }

    /// Records an entry. A msgid seen before gets the new msgstr and the call
    /// reports the duplicate; empty msgstrs are recorded too, so that
    /// duplicates among untranslated messages are found.
    fn add_entry(&mut self, msgid: String, msgstr: String) -> (r: Result<(), String>)
        ensures
            final(self)@.entry_state == old(self)@.entry_state,
            final(self)@.line_number == old(self)@.line_number,
            final(self)@.entries == entries_with(old(self)@.entries, msgid@, msgstr@),
            match r {
                Ok(()) => duplicate_error(old(self)@.entries, msgid@, msgstr@) is None,
                Err(e) => duplicate_error(old(self)@.entries, msgid@, msgstr@) == Some(e@),
            },
    {
        let ghost es = old(self)@.entries;
        let mut j = self.entries.len();
        let mut found = false;
        assert(es.take(j as int) =~= es);
        while j > 0 && !found
            invariant
                j <= self.entries@.len(),
                self@ == old(self)@,
                es == pairs_view(self.entries@),
                key_position(es, msgid@) == key_position(es.take(j as int), msgid@),
                found ==> j > 0 && es[j - 1].0 == msgid@,
            decreases j + (if found { 0int } else { 1int }),
        {
            if self.entries[j - 1].0 == msgid {
                found = true;
            } else {
                assert(es.take(j as int).drop_last() =~= es.take(j - 1));
                j = j - 1;
            }
        }
        let ghost pos = key_position(es, msgid@);
        if !found {
            assert(es.take(0) =~= Seq::<(Seq<char>, Seq<char>)>::empty());
            self.entries.push((msgid, msgstr));
            assert(pairs_view(self.entries@) =~= es.push((msgid@, msgstr@)));
            Ok(())
        } else {
            assert(es.take(j as int).last() == es[j - 1]);
            assert(pos == j - 1);
            let mut e = "Duplicate msgid '".to_owned();
            push_str(&mut e, msgid.as_str());
            push_str(&mut e, "'. First translated as ");
            push_str(&mut e, self.entries[j - 1].1.as_str());
            push_str(&mut e, ", then as ");
            push_str(&mut e, msgstr.as_str());
            self.entries.set(j - 1, (msgid, msgstr));
            assert(pairs_view(self.entries@) =~= es.update(pos, (msgid@, msgstr@)));
            Err(e)
        }
    }

    /// Reads one more line.
    pub fn add_line(&mut self, line: &str) -> (r: Result<(), String>)
        requires
            old(self)@.line_number < usize::MAX,
        ensures
            final(self)@ == add_line_spec(old(self)@, line@).0,
            match r {
                Ok(()) => add_line_spec(old(self)@, line@).1 is None,
                Err(e) => add_line_spec(old(self)@, line@).1 == Some(e@),
            },
    {
        let chars = str_chars(line);
        self.add_line_chars(&chars)
    }

    fn add_line_chars(&mut self, line: &[char]) -> (r: Result<(), String>)
        requires
            old(self)@.line_number < usize::MAX,
        ensures
            final(self)@ == add_line_spec(old(self)@, line@).0,
            match r {
                Ok(()) => add_line_spec(old(self)@, line@).1 is None,
                Err(e) => add_line_spec(old(self)@, line@).1 == Some(e@),
            },
    {
        let state = self.entry_state.copied();
        self.line_number = self.line_number + 1;
        let n = self.line_number;
        match line_type_chars(line) {
            LineType::Ignored => match state {
                EntryState::WaitingForEntry => {
                    self.entry_state = EntryState::WaitingForEntry;
                },
                EntryState::StartedMsgid(msgid) => {
                    let mut e = line_start(n);
                    push_str(&mut e, ", msgid \"");
                    push_str(&mut e, msgid.as_str());
                    push_str(&mut e, "\": msgid must be directly followed by msgstr.");
                    return Err(e);
                },
                EntryState::StartedMsgstr(msgid, msgstr) => {
                    if let Err(err) = self.add_entry(msgid, msgstr) {
                        let mut e = line_start(n);
                        push_str(&mut e, ": ");
                        push_str(&mut e, err.as_str());
                        return Err(e);
                    }
                    self.entry_state = EntryState::WaitingForEntry;
                },
            },
            LineType::MsgidStart(msgid) => match state {
                EntryState::WaitingForEntry => {
                    self.entry_state = EntryState::StartedMsgid(msgid);
                },
                EntryState::StartedMsgid(second_msgid) => {
                    let mut e = line_start(n);
                    push_str(&mut e, ": two consecutive msgids: \"");
                    push_str(&mut e, msgid.as_str());
                    push_str(&mut e, "\" and \"");
                    push_str(&mut e, second_msgid.as_str());
                    push_str(&mut e, "\"");
                    return Err(e);
                },
                EntryState::StartedMsgstr(old_msgid, old_msgstr) => {
                    if let Err(err) = self.add_entry(old_msgid, old_msgstr) {
                        let mut e = line_start(n);
                        push_str(&mut e, ": ");
                        push_str(&mut e, err.as_str());
                        return Err(e);
                    }
                    self.entry_state = EntryState::StartedMsgid(msgid);
                },
            },
            LineType::MsgstrStart(msgstr) => match state {
                EntryState::WaitingForEntry => {
                    let mut e = line_start(n);
                    push_str(&mut e, ": msgstr \"");
                    push_str(&mut e, msgstr.as_str());
                    push_str(&mut e, "\" without preceding msgid.");
                    return Err(e);
                },
                EntryState::StartedMsgid(msgid) => {
                    self.entry_state = EntryState::StartedMsgstr(msgid, msgstr);
                },
                EntryState::StartedMsgstr(msgid, first_msgstr) => {
                    let mut e = line_start(n);
                    push_str(&mut e, ": two consecutive msgstrs for msgid \"");
                    push_str(&mut e, msgid.as_str());
                    push_str(&mut e, "\": \"");
                    push_str(&mut e, first_msgstr.as_str());
                    push_str(&mut e, "\" and \"");
                    push_str(&mut e, msgstr.as_str());
                    push_str(&mut e, "\"");
                    return Err(e);
                },
            },
            LineType::QuotedString(string) => match state {
                EntryState::WaitingForEntry => {
                    let mut e = line_start(n);
                    push_str(&mut e, ": string literal not part of a msgid or msgstr: \"");
                    push_str(&mut e, string.as_str());
                    push_str(&mut e, "\"");
                    return Err(e);
                },
                EntryState::StartedMsgid(msgid) => {
                    let mut msgid = msgid;
                    push_str(&mut msgid, string.as_str());
                    self.entry_state = EntryState::StartedMsgid(msgid);
                },
                EntryState::StartedMsgstr(msgid, msgstr) => {
                    let mut msgstr = msgstr;
                    push_str(&mut msgstr, string.as_str());
                    self.entry_state = EntryState::StartedMsgstr(msgid, msgstr);
                },
            },
            LineType::Unsupported(err) => {
                let mut e = "Unsupported syntax found in line ".to_owned();
                push_decimal(&mut e, n);
                push_str(&mut e, ": ");
                push_str(&mut e, err.as_str());
                return Err(e);
            },
            LineType::Invalid(err) => {
                let mut e = "Invalid syntax found in line ".to_owned();
                push_decimal(&mut e, n);
                push_str(&mut e, ": ");
                push_str(&mut e, err.as_str());
                return Err(e);
            },
        }
        Ok(())
    }

    /// The first entry completed so far, if any.
    pub fn first_entry(&self) -> (r: Option<(String, String)>)
        ensures
            match r {
                Some((a, b)) => self@.entries.len() > 0 && self@.entries[0] == (a@, b@),
                None => self@.entries.len() == 0,
            },
    {
        if self.entries.len() == 0 {
            return None;
        }
        let (a, b) = &self.entries[0];
        Some((a.clone(), b.clone()))
    }

    /// Ends the parse: the entries found, or the complaint about an entry
    /// left open at the end.
    pub fn finish(self) -> (r: Result<Vec<(String, String)>, String>)
        ensures
            match r {
                Ok(v) => finish_spec(self@) == Ok::<Seq<(Seq<char>, Seq<char>)>, Seq<char>>(pairs_view(v@)),
                Err(e) => finish_spec(self@) == Err::<Seq<(Seq<char>, Seq<char>)>, Seq<char>>(e@),
            },
    {
        let mut st = self;
        match st.entry_state.copied() {
            EntryState::WaitingForEntry => {},
            EntryState::StartedMsgid(msgid) => {
                let mut e = "Trailing msgid '".to_owned();
                push_str(&mut e, msgid.as_str());
                push_str(&mut e, "' without corresponding msgstr.");
                return Err(e);
            },
            EntryState::StartedMsgstr(msgid, msgstr) => {
                st.add_entry(msgid, msgstr)?;
            },
        }
        Ok(st.entries)
    }
}

// ---------------------------------------------------------------------------
// Whole files
// ---------------------------------------------------------------------------

/// The lines of `c`, each with its terminating newline byte if it has one;
/// `cur` is the part of the current line read before `c`.
pub open spec fn lines_from(c: Seq<u8>, cur: Seq<u8>) -> Seq<Seq<u8>>
    decreases c.len(),
{
    if c.len() == 0 {
        if cur.len() == 0 { Seq::empty() } else { seq![cur] }
    } else if c[0] == 10u8 {
        seq![cur.push(c[0])] + lines_from(c.drop_first(), Seq::empty())
    } else {
        lines_from(c.drop_first(), cur.push(c[0]))
    }
}

/// The lines of `content` as bytes, each with its newline if it has one.
pub open spec fn raw_lines(content: Seq<u8>) -> Seq<Seq<u8>> {
    lines_from(content, Seq::empty())
}

/// A line without its `\n` or `\r\n` terminator.
pub open spec fn strip_line_end(s: Seq<char>) -> Seq<char> {
    if s.len() > 0 && s.last() == '\n' {
        let t = s.drop_last();
        if t.len() > 0 && t.last() == '\r' { t.drop_last() } else { t }
    } else {
        s
    }
}

/// The text of a raw line.
pub open spec fn decoded_line(raw: Seq<u8>) -> Seq<char> {
    strip_line_end(decode_utf8(raw))
}

/// The complaint about a line that is not valid UTF-8.
pub open spec fn read_error() -> Seq<char> {
    "Failed to read line: stream did not contain valid UTF-8"@
}

/// Reading the raw lines in turn from `st`: the state reached, or the first
/// error met.
pub open spec fn po_run(st: PoState, raws: Seq<Seq<u8>>) -> Result<PoState, Seq<char>>
    decreases raws.len(),
{
    if raws.len() == 0 {
        Ok(st)
    } else if !valid_utf8(raws[0]) {
        Err(read_error())
    } else {
        let (next, err) = add_line_spec(st, decoded_line(raws[0]));
        match err {
            Some(e) => Err(e),
            None => po_run(next, raws.drop_first()),
        }
    }
}

/// What a PO file holds: its `(msgid, msgstr)` pairs in the order their
/// msgids first appear, or the error that stops the parse.
pub open spec fn po_file(content: Seq<u8>) -> Result<Seq<(Seq<char>, Seq<char>)>, Seq<char>> {
    match po_run(initial_state(), raw_lines(content)) {
        Err(e) => Err(e),
        Ok(st) => finish_spec(st),
    }
}

proof fn lemma_lines_step(c: Seq<u8>, start: int, i: int)
    requires
        0 <= start <= i < c.len(),
    ensures
        c[i] == 10u8 ==> lines_from(c.skip(i), c.subrange(start, i)) == seq![c.subrange(start, i + 1)]
            + lines_from(c.skip(i + 1), c.subrange(i + 1, i + 1)),
        c[i] != 10u8 ==> lines_from(c.skip(i), c.subrange(start, i)) == lines_from(c.skip(i + 1), c.subrange(start, i + 1)),
{
    assert(c.skip(i).drop_first() =~= c.skip(i + 1));
    assert(c.subrange(start, i).push(c[i]) =~= c.subrange(start, i + 1));
    assert(c.subrange(i + 1, i + 1) =~= Seq::<u8>::empty());
}

proof fn lemma_run_one(st: PoState, line: Seq<u8>, rest: Seq<Seq<u8>>)
    ensures
        po_run(st, seq![line] + rest) == (if !valid_utf8(line) {
            Err(read_error())
        } else {
            let (next, err) = add_line_spec(st, decoded_line(line));
            match err {
                Some(e) => Err(e),
                None => po_run(next, rest),
            }
        }),
{
    assert((seq![line] + rest).drop_first() =~= rest);
    assert((seq![line] + rest)[0] == line);
}

/// Reads the bytes `content[from..to]` as a line: its text without the line
/// terminator, or the complaint that it is not UTF-8.
fn read_line(content: &[u8], from: usize, to: usize) -> (r: Result<Vec<char>, String>)
    requires
        from <= to <= content@.len(),
    ensures
        match r {
            Ok(v) => valid_utf8(content@.subrange(from as int, to as int))
                && v@ == decoded_line(content@.subrange(from as int, to as int)),
            Err(e) => !valid_utf8(content@.subrange(from as int, to as int)) && e@ == read_error(),
        },
{
    let bytes = vstd::slice::slice_subrange(content, from, to);
    match decode_utf8_chars(bytes) {
        None => Err("Failed to read line: stream did not contain valid UTF-8".to_owned()),
        Some(chars) => {
            let mut chars = chars;
            let ghost all = chars@;
            let n = chars.len();
            if n > 0 && chars[n - 1] == '\n' {
                chars.pop();
                let m = chars.len();
                if m > 0 && chars[m - 1] == '\r' {
                    chars.pop();
                }
            }
            proof {
                if all.len() > 0 && all.last() == '\n' {
                    assert(all.drop_last() =~= all.subrange(0, all.len() - 1));
                    let t = all.drop_last();
                    if t.len() > 0 && t.last() == '\r' {
                        assert(t.drop_last() =~= chars@);
                    } else {
                        assert(t =~= chars@);
                    }
                }
            }
            Ok(chars)
        },
    }
}

/// Parses the content of a PO file into its `(msgid, msgstr)` pairs, in the
/// order their msgids first appear. An entry ends at a blank or comment
/// line, at the next msgid line, or at the end of the file; a msgid must
/// not appear twice.
pub fn parse_po_file(content: &[u8]) -> (r: Result<Vec<(String, String)>, String>)
    ensures
        match r {
            Ok(v) => po_file(content@) == Ok::<Seq<(Seq<char>, Seq<char>)>, Seq<char>>(pairs_view(v@)),
            Err(e) => po_file(content@) == Err::<Seq<(Seq<char>, Seq<char>)>, Seq<char>>(e@),
        },
        r matches Ok(v) ==> msgids_distinct(pairs_view(v@)),
{
    let mut state = ParsingState::new();
    let n = content.len();
    let mut start: usize = 0;
    let mut i: usize = 0;
    assert(content@.skip(0) =~= content@);
    assert(content@.subrange(0, 0) =~= Seq::<u8>::empty());
    while i < n
        invariant
            start <= i <= n,
            n == content@.len(),
            state@.line_number <= start,
            po_run(initial_state(), raw_lines(content@)) == po_run(
                state@,
                lines_from(content@.skip(i as int), content@.subrange(start as int, i as int)),
            ),
        decreases n - i,
    {
        proof {
            lemma_lines_step(content@, start as int, i as int);
        }
        if content[i] == 10u8 {
            let ghost raw = content@.subrange(start as int, i + 1);
            proof {
                lemma_run_one(state@, raw, lines_from(content@.skip(i + 1), content@.subrange(i + 1, i + 1)));
            }
            let line = read_line(content, start, i + 1)?;
            state.add_line_chars(&line)?;
            start = i + 1;
        }
        i = i + 1;
    }
    assert(content@.skip(n as int) =~= Seq::<u8>::empty());
    if start < n {
        let ghost raw = content@.subrange(start as int, n as int);
        proof {
            assert(lines_from(Seq::<u8>::empty(), raw) == seq![raw]);
            assert(seq![raw] =~= seq![raw] + Seq::<Seq<u8>>::empty());
            lemma_run_one(state@, raw, Seq::empty());
        }
        let line = read_line(content, start, n)?;
        state.add_line_chars(&line)?;
    } else {
        assert(content@.subrange(start as int, n as int) =~= Seq::<u8>::empty());
    }
    let r = state.finish();
    proof {
        if r is Ok {
            lemma_po_file_msgids_distinct(content@);
        }
    }
    r
}

/// The texts of all lines of `content`, or the complaint about the first
/// line that is not UTF-8.
pub open spec fn file_lines(content: Seq<u8>) -> Result<Seq<Seq<char>>, Seq<char>> {
    let raws = raw_lines(content);
    if forall|k: int| 0 <= k < raws.len() ==> valid_utf8(#[trigger] raws[k]) {
        Ok(raws.map_values(|r: Seq<u8>| decoded_line(r)))
    } else {
        Err(read_error())
    }
}

/// Searching backwards from line `j` for the nearest line that a fresh
/// parser accepts: that line and the state after it, or the complaint about
/// the first line when none is accepted.
pub open spec fn back_search(lines: Seq<Seq<char>>, j: nat) -> Result<(nat, PoState), Seq<char>>
    decreases j,
{
    let (st, err) = add_line_spec(initial_state(), lines[j as int]);
    match err {
        None => Ok((j, st)),
        Some(e) => if j == 0 { Err(e) } else { back_search(lines, (j - 1) as nat) },
    }
}

/// Reading the lines after line `j` until an entry is complete or the lines
/// run out.
pub open spec fn forward_read(lines: Seq<Seq<char>>, j: nat, st: PoState) -> Result<PoState, Seq<char>>
    decreases lines.len() - j,
{
    if st.entries.len() == 0 && j + 1 < lines.len() {
        let (next, err) = add_line_spec(st, lines[j + 1int]);
        match err {
            Some(e) => Err(e),
            None => forward_read(lines, j + 1, next),
        }
    } else {
        Ok(st)
    }
}

/// The entries found when reading from line `index`: the entry completed
/// by the forward read, or, when the lines ran out first, those that
/// finishing the parse there gives.
pub open spec fn entries_at_line(lines: Seq<Seq<char>>, index: nat) -> Result<Seq<(Seq<char>, Seq<char>)>, Seq<char>> {
    match back_search(lines, index) {
        Err(e) => Err("Failed to parse PO file: "@ + e),
        Ok((j, st)) => match forward_read(lines, j, st) {
            Err(e) => Err(e),
            Ok(st2) => if st2.entries.len() > 0 { Ok(st2.entries) } else { finish_spec(st2) },
        },
    }
}

/// The entry that a line of a PO file belongs to (lines counted from 0).
pub open spec fn message_at_line(index: nat, content: Seq<u8>) -> Result<(Seq<char>, Seq<char>), Seq<char>> {
    match file_lines(content) {
        Err(e) => Err(e),
        Ok(lines) => if index >= lines.len() {
            Err("Specified index exceeds the number of lines in the file"@)
        } else {
            match entries_at_line(lines, index) {
                Err(e) => Err(e),
                Ok(es) => if es.len() == 0 { Err("Did not find any entry."@) } else { Ok(es[0]) },
            }
        },
    }
}

/// At most one entry is ever complete when the search around a line ends.
pub open spec fn at_most_one_entry(st: PoState) -> bool {
    &&& st.entries.len() <= 1
    &&& st.entries.len() == 1 ==> !(st.entry_state is StartedMsgstr)
}

proof fn lemma_first_line_keeps_no_entry(line: Seq<char>)
    ensures
        add_line_spec(initial_state(), line).0.entries.len() == 0,
{
}

proof fn lemma_step_one_entry(st: PoState, line: Seq<char>)
    requires
        st.entries.len() == 0,
        add_line_spec(st, line).1 is None,
    ensures
        at_most_one_entry(add_line_spec(st, line).0),
{
    assert(key_position(st.entries, Seq::<char>::empty()) == -1);
    match st.entry_state {
        EntryState::StartedMsgstr(id, s) => {
            assert(key_position(st.entries, id) == -1);
        },
        _ => {},
    }
}

proof fn lemma_forward_one_entry(lines: Seq<Seq<char>>, j: nat, st: PoState)
    requires
        at_most_one_entry(st),
    ensures
        forward_read(lines, j, st) matches Ok(st2) ==> at_most_one_entry(st2),
    decreases lines.len() - j,
{
    if st.entries.len() == 0 && j + 1 < lines.len() {
        let (next, err) = add_line_spec(st, lines[j + 1int]);
        if err is None {
            lemma_step_one_entry(st, lines[j + 1int]);
            lemma_forward_one_entry(lines, j + 1, next);
        }
    }
}

proof fn lemma_back_search_no_entry(lines: Seq<Seq<char>>, j: nat)
    requires
        j < lines.len(),
    ensures
        back_search(lines, j) matches Ok((k, st)) ==> k <= j && st.entries.len() == 0 && st.line_number == 1,
    decreases j,
{
    lemma_first_line_keeps_no_entry(lines[j as int]);
    if j > 0 {
        lemma_back_search_no_entry(lines, (j - 1) as nat);
    }
}

/// Finishing the parse started at any line yields at most one entry, so the
/// entry returned for a line is the only one found.
pub proof fn lemma_single_entry_at_line(lines: Seq<Seq<char>>, index: nat)
    requires
        index < lines.len(),
    ensures
        entries_at_line(lines, index) matches Ok(es) ==> es.len() <= 1,
{
    lemma_back_search_no_entry(lines, index);
    match back_search(lines, index) {
        Err(_) => {},
        Ok((j, st)) => {
            lemma_forward_one_entry(lines, j, st);
            match forward_read(lines, j, st) {
                Err(_) => {},
                Ok(st2) => {
                    match st2.entry_state {
                        EntryState::StartedMsgstr(id, s) => {
                            assert(key_position(st2.entries, id) == -1);
                        },
                        _ => {},
                    }
                },
            }
        },
    }
}

/// Reads all lines of `content`.
fn collect_lines(content: &[u8]) -> (r: Result<Vec<Vec<char>>, String>)
    ensures
        match r {
            Ok(v) => file_lines(content@) matches Ok(ls) && ls.len() == v@.len()
                && forall|k: int| 0 <= k < ls.len() ==> #[trigger] v@[k]@ == ls[k],
            Err(e) => file_lines(content@) == Err::<Seq<Seq<char>>, Seq<char>>(e@),
        },
{
    let ghost raws = raw_lines(content@);
    let mut lines: Vec<Vec<char>> = Vec::new();
    let n = content.len();
    let mut start: usize = 0;
    let mut i: usize = 0;
    assert(content@.skip(0) =~= content@);
    assert(content@.subrange(0, 0) =~= Seq::<u8>::empty());
    assert(raws =~= Seq::<Seq<u8>>::empty() + lines_from(content@.skip(0), content@.subrange(0, 0)));
    while i < n
        invariant
            start <= i <= n,
            n == content@.len(),
            raws == raw_lines(content@),
            raws.len() == lines@.len() + lines_from(content@.skip(i as int), content@.subrange(start as int, i as int)).len(),
            forall|k: int| 0 <= k < lines@.len() ==> valid_utf8(#[trigger] raws[k]) && lines@[k]@ == decoded_line(raws[k]),
            raws.subrange(lines@.len() as int, raws.len() as int) == lines_from(content@.skip(i as int), content@.subrange(start as int, i as int)),
        decreases n - i,
    {
        proof {
            lemma_lines_step(content@, start as int, i as int);
        }
        if content[i] == 10u8 {
            let ghost raw = content@.subrange(start as int, i + 1);
            let ghost k = lines@.len() as int;
            assert(raws[k] == raws.subrange(k, raws.len() as int)[0]);
            assert(raws.subrange(k + 1, raws.len() as int) =~= raws.subrange(k, raws.len() as int).drop_first());
            assert((seq![raw] + lines_from(content@.skip(i + 1), content@.subrange(i + 1, i + 1))).drop_first()
                =~= lines_from(content@.skip(i + 1), content@.subrange(i + 1, i + 1)));
            match read_line(content, start, i + 1) {
                Ok(line) => { lines.push(line); },
                Err(e) => {
                    assert(!valid_utf8(raws[k]));
                    return Err(e);
                },
            }
            start = i + 1;
        }
        i = i + 1;
    }
    assert(content@.skip(n as int) =~= Seq::<u8>::empty());
    if start < n {
        let ghost raw = content@.subrange(start as int, n as int);
        let ghost k = lines@.len() as int;
        assert(lines_from(Seq::<u8>::empty(), raw) == seq![raw]);
        assert(raws[k] == raws.subrange(k, raws.len() as int)[0]);
        match read_line(content, start, n) {
            Ok(line) => { lines.push(line); },
            Err(e) => {
                assert(!valid_utf8(raws[k]));
                return Err(e);
            },
        }
    } else {
        assert(content@.subrange(start as int, n as int) =~= Seq::<u8>::empty());
    }
    proof {
        assert(raws.len() == lines@.len());
        assert forall|k: int| 0 <= k < raws.len() implies valid_utf8(#[trigger] raws[k]) by {
            assert(lines@[k]@ == decoded_line(raws[k]));
        }
    }
    Ok(lines)
}

/// The `(msgid, msgstr)` pair of the entry that line `index` (counted from
/// 0) of a PO file belongs to. Starting at that line, the search goes back
/// to the nearest line that can start a parse, then reads on until one
/// entry is complete.
pub fn get_message_at_line_index(index: usize, content: &[u8]) -> (r: Result<(String, String), String>)
    ensures
        match r {
            Ok((id, s)) => message_at_line(index as nat, content@) == Ok::<(Seq<char>, Seq<char>), Seq<char>>((id@, s@)),
            Err(e) => message_at_line(index as nat, content@) == Err::<(Seq<char>, Seq<char>), Seq<char>>(e@),
        },
{
    let lines = collect_lines(content)?;
    let ghost ls = file_lines(content@)->Ok_0;
    if index >= lines.len() {
        return Err("Specified index exceeds the number of lines in the file".to_owned());
    }
    let ghost first = index as nat;
    let mut idx = index;
    let mut state = ParsingState::new();
    loop
        invariant_except_break
            state@ == initial_state(),
        invariant
            idx < lines@.len(),
            ls.len() == lines@.len(),
            forall|k: int| 0 <= k < ls.len() ==> #[trigger] lines@[k]@ == ls[k],
            back_search(ls, first) == back_search(ls, idx as nat),
            file_lines(content@) == Ok::<Seq<Seq<char>>, Seq<char>>(ls),
            first < ls.len(),
            first == index as nat,
        ensures
            state@ == add_line_spec(initial_state(), ls[idx as int]).0,
            add_line_spec(initial_state(), ls[idx as int]).1 is None,
        decreases idx,
    {
        match state.add_line_chars(&lines[idx]) {
            Ok(()) => { break; },
            Err(err) => {
                if idx == 0 {
                    let mut e = "Failed to parse PO file: ".to_owned();
                    push_str(&mut e, err.as_str());
                    assert(back_search(ls, 0) == Err::<(nat, PoState), Seq<char>>(err@));
                    assert(entries_at_line(ls, first) == Err::<Seq<(Seq<char>, Seq<char>)>, Seq<char>>(e@));
                    assert(file_lines(content@) == Ok::<Seq<Seq<char>>, Seq<char>>(ls));
                    assert(message_at_line(first, content@) == Err::<(Seq<char>, Seq<char>), Seq<char>>(e@));
                    return Err(e);
                }
                state = ParsingState::new();
                idx = idx - 1;
            },
        }
    }
    let ghost j0 = idx as nat;
    assert(back_search(ls, first) == Ok::<(nat, PoState), Seq<char>>((j0, state@)));
    assert(state@.line_number == 1);
    while !state.has_entry() && idx < lines.len() - 1
        invariant
            j0 <= idx < lines@.len(),
            ls.len() == lines@.len(),
            forall|k: int| 0 <= k < ls.len() ==> #[trigger] lines@[k]@ == ls[k],
            state@.line_number == idx - j0 + 1,
            forward_read(ls, j0, add_line_spec(initial_state(), ls[j0 as int]).0) == forward_read(ls, idx as nat, state@),
            back_search(ls, first) == Ok::<(nat, PoState), Seq<char>>((j0, add_line_spec(initial_state(), ls[j0 as int]).0)),
            file_lines(content@) == Ok::<Seq<Seq<char>>, Seq<char>>(ls),
            first < ls.len(),
            first == index as nat,
        decreases lines@.len() - idx,
    {
        idx = idx + 1;
        let ghost before = state@;
        match state.add_line_chars(&lines[idx]) {
            Ok(()) => {},
            Err(e) => {
                assert(forward_read(ls, (idx - 1) as nat, before) == Err::<PoState, Seq<char>>(e@));
                assert(entries_at_line(ls, first) == Err::<Seq<(Seq<char>, Seq<char>)>, Seq<char>>(e@));
                assert(message_at_line(first, content@) == Err::<(Seq<char>, Seq<char>), Seq<char>>(e@));
                return Err(e);
            },
        }
    }
    proof {
        lemma_single_entry_at_line(ls, first);
    }
    if let Some(entry) = state.first_entry() {
        return Ok(entry);
    }
    let entries = state.finish()?;
    if entries.len() == 0 {
        return Err("Did not find any entry.".to_owned());
    }
    let mut entries = entries;
    let entry = entries.swap_remove(0);
    Ok(entry)
}

/// Whether no msgid occurs twice among the entries.
pub open spec fn msgids_distinct(entries: Seq<(Seq<char>, Seq<char>)>) -> bool {
    forall|i: int, j: int| 0 <= i < j < entries.len() ==> (#[trigger] entries[i]).0 != (#[trigger] entries[j]).0
}

proof fn lemma_key_absent(entries: Seq<(Seq<char>, Seq<char>)>, key: Seq<char>)
    requires
        key_position(entries, key) < 0,
    ensures
        forall|i: int| 0 <= i < entries.len() ==> (#[trigger] entries[i]).0 != key,
    decreases entries.len(),
{
    if entries.len() > 0 {
        lemma_key_absent(entries.drop_last(), key);
        assert forall|i: int| 0 <= i < entries.len() implies (#[trigger] entries[i]).0 != key by {
            if i < entries.len() - 1 {
                assert(entries[i] == entries.drop_last()[i]);
            }
        }
    }
}

proof fn lemma_record_keeps_distinct(entries: Seq<(Seq<char>, Seq<char>)>, key: Seq<char>, value: Seq<char>)
    requires
        msgids_distinct(entries),
        duplicate_error(entries, key, value) is None,
    ensures
        msgids_distinct(entries_with(entries, key, value)),
{
    lemma_key_absent(entries, key);
    let e = entries_with(entries, key, value);
    assert(e == entries.push((key, value)));
    assert forall|i: int, j: int| 0 <= i < j < e.len() implies (#[trigger] e[i]).0 != (#[trigger] e[j]).0 by {
        if j == entries.len() {
            assert(e[i] == entries[i]);
        } else {
            assert(e[i] == entries[i] && e[j] == entries[j]);
        }
    }
}

proof fn lemma_line_keeps_distinct(st: PoState, line: Seq<char>)
    requires
        msgids_distinct(st.entries),
        add_line_spec(st, line).1 is None,
    ensures
        msgids_distinct(add_line_spec(st, line).0.entries),
{
    match st.entry_state {
        EntryState::StartedMsgstr(id, s) => {
            if duplicate_error(st.entries, id, s) is None {
                lemma_record_keeps_distinct(st.entries, id, s);
            }
        },
        _ => {},
    }
}

proof fn lemma_run_keeps_distinct(st: PoState, raws: Seq<Seq<u8>>)
    requires
        msgids_distinct(st.entries),
        po_run(st, raws) is Ok,
    ensures
        msgids_distinct(po_run(st, raws)->Ok_0.entries),
    decreases raws.len(),
{
    if raws.len() > 0 {
        let (next, err) = add_line_spec(st, decoded_line(raws[0]));
        lemma_line_keeps_distinct(st, decoded_line(raws[0]));
        lemma_run_keeps_distinct(next, raws.drop_first());
    }
}

/// A PO file that parses gives each msgid once.
pub proof fn lemma_po_file_msgids_distinct(content: Seq<u8>)
    requires
        po_file(content) is Ok,
    ensures
        msgids_distinct(po_file(content)->Ok_0),
{
    let st = po_run(initial_state(), raw_lines(content))->Ok_0;
    lemma_run_keeps_distinct(initial_state(), raw_lines(content));
    match st.entry_state {
        EntryState::StartedMsgstr(id, s) => {
            lemma_record_keeps_distinct(st.entries, id, s);
        },
        _ => {},
    }
}

/// The state of a parser after reading the first `t` lines, or the first
/// error met.
pub open spec fn state_after(lines: Seq<Seq<char>>, t: nat) -> Result<PoState, Seq<char>>
    decreases t,
{
    if t == 0 {
        Ok(initial_state())
    } else {
        match state_after(lines, (t - 1) as nat) {
            Err(e) => Err(e),
            Ok(st) => {
                let (next, err) = add_line_spec(st, lines[t - 1]);
                match err {
                    Some(e) => Err(e),
                    None => Ok(next),
                }
            },
        }
    }
}

proof fn lemma_run_in_steps(raws: Seq<Seq<u8>>, lines: Seq<Seq<char>>, t: nat)
    requires
        t <= raws.len(),
        lines == raws.map_values(|r: Seq<u8>| decoded_line(r)),
        forall|k: int| 0 <= k < raws.len() ==> valid_utf8(#[trigger] raws[k]),
    ensures
        match state_after(lines, t) {
            Ok(st) => po_run(initial_state(), raws) == po_run(st, raws.skip(t as int)),
            Err(e) => po_run(initial_state(), raws) == Err::<PoState, Seq<char>>(e),
        },
    decreases t,
{
    if t == 0 {
        assert(raws.skip(0) =~= raws);
    } else {
        let u = (t - 1) as nat;
        lemma_run_in_steps(raws, lines, u);
        match state_after(lines, u) {
            Ok(st) => {
                let rest = raws.skip(u as int);
                assert(rest[0] == raws[u as int]);
                assert(valid_utf8(raws[u as int]));
                assert(lines[u as int] == decoded_line(raws[u as int]));
                assert(rest.drop_first() =~= raws.skip(t as int));
            },
            Err(_) => {},
        }
    }
}

proof fn lemma_error_sticks(lines: Seq<Seq<char>>, t: nat, u: nat)
    requires
        t <= u,
        state_after(lines, t) is Err,
    ensures
        state_after(lines, u) == state_after(lines, t),
    decreases u - t,
{
    if u > t {
        lemma_error_sticks(lines, t, (u - 1) as nat);
    }
}

proof fn lemma_entries_stay(lines: Seq<Seq<char>>, t: nat, u: nat, x: (Seq<char>, Seq<char>))
    requires
        t <= u,
        state_after(lines, u) is Ok,
        state_after(lines, t) is Ok,
        state_after(lines, t)->Ok_0.entries.contains(x),
    ensures
        state_after(lines, u)->Ok_0.entries.contains(x),
    decreases u - t,
{
    if u > t {
        let w = (u - 1) as nat;
        if state_after(lines, w) is Err {
            lemma_error_sticks(lines, w, u);
        }
        lemma_entries_stay(lines, t, w, x);
        let st = state_after(lines, w)->Ok_0;
        lemma_step_keeps_entries(st, lines[w as int], x);
    }
}

proof fn lemma_step_keeps_entries(st: PoState, line: Seq<char>, x: (Seq<char>, Seq<char>))
    requires
        add_line_spec(st, line).1 is None,
        st.entries.contains(x),
    ensures
        add_line_spec(st, line).0.entries.contains(x),
{
    match st.entry_state {
        EntryState::StartedMsgstr(id, s) => {
            if key_position(st.entries, id) < 0 {
                let k = choose|k: int| 0 <= k < st.entries.len() && st.entries[k] == x;
                assert(st.entries.push((id, s))[k] == x);
            }
        },
        _ => {},
    }
}

/// Reading one line from the same entry state with no entry yet complete
/// goes as it goes in the full parse: no error, the same entry state, and
/// an entry completed here is one the full parse completes too.
proof fn lemma_step_in_sync(a: PoState, b: PoState, line: Seq<char>)
    requires
        a.entries.len() == 0,
        a.entry_state == b.entry_state,
        add_line_spec(b, line).1 is None,
    ensures
        add_line_spec(a, line).1 is None,
        add_line_spec(a, line).0.entry_state == add_line_spec(b, line).0.entry_state,
        add_line_spec(a, line).0.entries.len() <= 1,
        add_line_spec(a, line).0.entries.len() == 1 ==> add_line_spec(b, line).0.entries.contains(add_line_spec(a, line).0.entries[0]),
{
    assert(key_position(a.entries, Seq::<char>::empty()) == -1);
    match a.entry_state {
        EntryState::StartedMsgstr(id, s) => {
            assert(key_position(a.entries, id) == -1);
            if key_position(b.entries, id) < 0 {
                assert(b.entries.push((id, s))[b.entries.len() as int] == (id, s));
            }
        },
        _ => {},
    }
}

proof fn lemma_forward_in_sync(lines: Seq<Seq<char>>, j: nat, a: PoState)
    requires
        j < lines.len(),
        state_after(lines, lines.len()) is Ok,
        state_after(lines, j + 1) is Ok,
        a.entry_state == state_after(lines, j + 1)->Ok_0.entry_state,
        a.entries.len() <= 1,
        a.entries.len() == 1 ==> state_after(lines, j + 1)->Ok_0.entries.contains(a.entries[0]),
    ensures
        forward_read(lines, j, a) matches Ok(a2) ==> {
            ||| a2.entries.len() == 1 && state_after(lines, lines.len())->Ok_0.entries.contains(a2.entries[0])
            ||| a2.entries.len() == 0 && a2.entry_state == state_after(lines, lines.len())->Ok_0.entry_state
        },
    decreases lines.len() - j,
{
    let b = state_after(lines, j + 1)->Ok_0;
    if a.entries.len() == 0 && j + 1 < lines.len() {
        let next_b = state_after(lines, j + 2);
        if next_b is Err {
            lemma_error_sticks(lines, j + 2, lines.len());
        }
        assert(next_b == Ok::<PoState, Seq<char>>(add_line_spec(b, lines[j + 1int]).0));
        lemma_step_in_sync(a, b, lines[j + 1int]);
        let a2 = add_line_spec(a, lines[j + 1int]).0;
        lemma_forward_in_sync(lines, j + 1, a2);
    } else if a.entries.len() == 1 {
        lemma_entries_stay(lines, j + 1, lines.len(), a.entries[0]);
    } else {
        assert(j + 1 == lines.len());
    }
}

proof fn lemma_back_search_found(lines: Seq<Seq<char>>, j: nat)
    requires
        j < lines.len(),
    ensures
        back_search(lines, j) matches Ok((k, st)) ==> k <= j && add_line_spec(initial_state(), lines[k as int]) == (st, None::<Seq<char>>),
    decreases j,
{
    if j > 0 {
        lemma_back_search_found(lines, (j - 1) as nat);
    }
}

proof fn lemma_fresh_in_sync(p: PoState, line: Seq<char>)
    requires
        add_line_spec(initial_state(), line).1 is None,
        add_line_spec(p, line).1 is None,
    ensures
        add_line_spec(initial_state(), line).0.entry_state == add_line_spec(p, line).0.entry_state,
{
}

/// The message found at a line of a PO file that parses is one of the
/// file's messages.
pub proof fn lemma_message_at_line_in_file(index: nat, content: Seq<u8>)
    requires
        po_file(content) is Ok,
        message_at_line(index, content) is Ok,
    ensures
        po_file(content)->Ok_0.contains(message_at_line(index, content)->Ok_0),
{
    let raws = raw_lines(content);
    let lines = file_lines(content)->Ok_0;
    let n = lines.len();
    lemma_run_in_steps(raws, lines, n);
    assert(raws.skip(n as int) =~= Seq::<Seq<u8>>::empty());
    if state_after(lines, n) is Err {
        assert(false);
    }
    let full = state_after(lines, n)->Ok_0;
    assert(po_run(initial_state(), raws) == Ok::<PoState, Seq<char>>(full));
    let pairs = finish_spec(full)->Ok_0;
    lemma_back_search_found(lines, index);
    lemma_back_search_no_entry(lines, index);
    let (k, st0) = back_search(lines, index)->Ok_0;
    if state_after(lines, k) is Err {
        lemma_error_sticks(lines, k, n);
    }
    if state_after(lines, k + 1) is Err {
        lemma_error_sticks(lines, k + 1, n);
    }
    let p = state_after(lines, k)->Ok_0;
    lemma_fresh_in_sync(p, lines[k as int]);
    lemma_forward_in_sync(lines, k, st0);
    lemma_forward_one_entry(lines, k, st0);
    let a2 = forward_read(lines, k, st0)->Ok_0;
    let es = entries_at_line(lines, index)->Ok_0;
    if a2.entries.len() == 1 {
        assert(es == a2.entries);
        let x = a2.entries[0];
        match full.entry_state {
            EntryState::StartedMsgstr(id, s) => {
                let j = choose|j: int| 0 <= j < full.entries.len() && full.entries[j] == x;
                assert(pairs[j] == x);
            },
            _ => {},
        }
    } else {
        match a2.entry_state {
            EntryState::StartedMsgstr(id, s) => {
                assert(key_position(a2.entries, id) == -1);
                assert(es[0] == (id, s));
                assert(pairs == full.entries.push((id, s)));
                assert(pairs[full.entries.len() as int] == (id, s));
            },
            _ => {},
        }
    }
}

proof fn lemma_run_ok_valid(st: PoState, raws: Seq<Seq<u8>>)
    requires
        po_run(st, raws) is Ok,
    ensures
        forall|k: int| 0 <= k < raws.len() ==> valid_utf8(#[trigger] raws[k]),
    decreases raws.len(),
{
    if raws.len() > 0 {
        let (next, err) = add_line_spec(st, decoded_line(raws[0]));
        lemma_run_ok_valid(next, raws.drop_first());
        assert forall|k: int| 0 <= k < raws.len() implies valid_utf8(#[trigger] raws[k]) by {
            if k > 0 {
                assert(raws[k] == raws.drop_first()[k - 1]);
            }
        }
    }
}

proof fn lemma_step_prefix(st: PoState, line: Seq<char>)
    requires
        add_line_spec(st, line).1 is None,
    ensures
        st.entries.len() <= add_line_spec(st, line).0.entries.len(),
        forall|i: int| 0 <= i < st.entries.len() ==> add_line_spec(st, line).0.entries[i] == #[trigger] st.entries[i],
{
    match st.entry_state {
        EntryState::StartedMsgstr(id, s) => {
            if key_position(st.entries, id) < 0 {
                assert(st.entries.push((id, s)).len() == st.entries.len() + 1);
            }
        },
        _ => {},
    }
}

proof fn lemma_entries_prefix(lines: Seq<Seq<char>>, t: nat, u: nat)
    requires
        t <= u,
        state_after(lines, u) is Ok,
    ensures
        state_after(lines, t) is Ok,
        state_after(lines, t)->Ok_0.entries.len() <= state_after(lines, u)->Ok_0.entries.len(),
        forall|i: int| 0 <= i < state_after(lines, t)->Ok_0.entries.len()
            ==> state_after(lines, u)->Ok_0.entries[i] == #[trigger] state_after(lines, t)->Ok_0.entries[i],
    decreases u - t,
{
    if state_after(lines, t) is Err {
        lemma_error_sticks(lines, t, u);
    }
    if u > t {
        let w = (u - 1) as nat;
        lemma_entries_prefix(lines, t, w);
        lemma_step_prefix(state_after(lines, w)->Ok_0, lines[w as int]);
    }
}

proof fn lemma_step_exact(a: PoState, b: PoState, line: Seq<char>)
    requires
        a.entries.len() == 0,
        !(a.entry_state is WaitingForEntry),
        a.entry_state == b.entry_state,
        add_line_spec(b, line).1 is None,
    ensures
        add_line_spec(a, line).1 is None,
        add_line_spec(a, line).0.entry_state == add_line_spec(b, line).0.entry_state,
        add_line_spec(a, line).0.entries.len() <= 1,
        add_line_spec(a, line).0.entries.len() == 1 ==> add_line_spec(b, line).0.entries == b.entries.push(add_line_spec(a, line).0.entries[0]),
        add_line_spec(a, line).0.entries.len() == 0 ==> add_line_spec(b, line).0.entries == b.entries
            && !(add_line_spec(a, line).0.entry_state is WaitingForEntry),
{
    lemma_step_in_sync(a, b, line);
    match a.entry_state {
        EntryState::StartedMsgstr(id, s) => {
            assert(key_position(a.entries, id) == -1);
        },
        _ => {},
    }
}

proof fn lemma_forward_exact(lines: Seq<Seq<char>>, j: nat, a: PoState, n0: nat)
    requires
        j < lines.len(),
        state_after(lines, lines.len()) is Ok,
        state_after(lines, j + 1) is Ok,
        a.entry_state == state_after(lines, j + 1)->Ok_0.entry_state,
        a.entries.len() <= 1,
        a.entries.len() == 0 ==> state_after(lines, j + 1)->Ok_0.entries.len() == n0 && !(a.entry_state is WaitingForEntry),
        a.entries.len() == 1 ==> state_after(lines, j + 1)->Ok_0.entries.len() > n0
            && state_after(lines, j + 1)->Ok_0.entries[n0 as int] == a.entries[0],
    ensures
        forward_read(lines, j, a) is Ok,
        ({
            let a2 = forward_read(lines, j, a)->Ok_0;
            let full = state_after(lines, lines.len())->Ok_0;
            ||| a2.entries.len() == 1 && full.entries.len() > n0 && full.entries[n0 as int] == a2.entries[0]
            ||| a2.entries.len() == 0 && a2.entry_state == full.entry_state && full.entries.len() == n0
                && !(a2.entry_state is WaitingForEntry)
        }),
    decreases lines.len() - j,
{
    let b = state_after(lines, j + 1)->Ok_0;
    if a.entries.len() == 0 && j + 1 < lines.len() {
        if state_after(lines, j + 2) is Err {
            lemma_error_sticks(lines, j + 2, lines.len());
        }
        lemma_step_exact(a, b, lines[j + 1int]);
        let a2 = add_line_spec(a, lines[j + 1int]).0;
        if a2.entries.len() == 1 {
            assert(state_after(lines, j + 2)->Ok_0.entries[n0 as int] == a2.entries[0]);
        }
        lemma_forward_exact(lines, j + 1, a2, n0);
    } else if a.entries.len() == 1 {
        lemma_entries_prefix(lines, j + 1, lines.len());
    } else {
        assert(j + 1 == lines.len());
    }
}

/// In a PO file that parses, the line where an entry's msgid starts gives
/// that entry: the one the whole parse records next after the entries
/// completed up to and including that line.
pub proof fn lemma_msgid_line_gives_its_entry(index: nat, content: Seq<u8>)
    requires
        po_file(content) is Ok,
        index < raw_lines(content).len(),
        line_type(decoded_line(raw_lines(content)[index as int])) is MsgidStart,
    ensures
        file_lines(content) is Ok,
        state_after(file_lines(content)->Ok_0, index + 1) is Ok,
        message_at_line(index, content) == Ok::<(Seq<char>, Seq<char>), Seq<char>>(
            po_file(content)->Ok_0[state_after(file_lines(content)->Ok_0, index + 1)->Ok_0.entries.len() as int],
        ),
{
    let raws = raw_lines(content);
    lemma_run_ok_valid(initial_state(), raws);
    let lines = file_lines(content)->Ok_0;
    let n = lines.len();
    assert(lines[index as int] == decoded_line(raws[index as int]));
    lemma_run_in_steps(raws, lines, n);
    assert(raws.skip(n as int) =~= Seq::<Seq<u8>>::empty());
    if state_after(lines, n) is Err {
        assert(false);
    }
    let full = state_after(lines, n)->Ok_0;
    let pairs = finish_spec(full)->Ok_0;
    if state_after(lines, index) is Err {
        lemma_error_sticks(lines, index, n);
    }
    if state_after(lines, index + 1) is Err {
        lemma_error_sticks(lines, index + 1, n);
    }
    let b = state_after(lines, index + 1)->Ok_0;
    let n0 = b.entries.len();
    let st0 = add_line_spec(initial_state(), lines[index as int]).0;
    assert(back_search(lines, index) == Ok::<(nat, PoState), Seq<char>>((index, st0)));
    lemma_fresh_in_sync(state_after(lines, index)->Ok_0, lines[index as int]);
    lemma_forward_exact(lines, index, st0, n0);
    let a2 = forward_read(lines, index, st0)->Ok_0;
    if a2.entries.len() == 1 {
        match full.entry_state {
            EntryState::StartedMsgstr(id, s) => {
                assert(pairs[n0 as int] == full.entries[n0 as int]);
            },
            _ => {},
        }
    } else {
        match a2.entry_state {
            EntryState::StartedMsgstr(id, s) => {
                assert(key_position(a2.entries, id) == -1);
                lemma_key_absent(a2.entries, id);
                assert(pairs == full.entries.push((id, s)));
            },
            _ => {},
        }
    }
}

/// A line that the parser refuses only advances the line counter: the
/// pending msgid or msgstr stays, and the entries stay unless the refusal
/// is of a duplicate msgid found on completing an entry.
pub proof fn lemma_refused_line_keeps_state(st: PoState, line: Seq<char>)
    requires
        add_line_spec(st, line).1 is Some,
    ensures
        add_line_spec(st, line).0.line_number == st.line_number + 1,
        add_line_spec(st, line).0.entry_state == st.entry_state,
        !(st.entry_state is StartedMsgstr && (line_type(line) is Ignored || line_type(line) is MsgidStart))
            ==> add_line_spec(st, line).0.entries == st.entries,
{
}

/// Whether `e` mentions `line N`.
pub open spec fn names_line(e: Seq<char>, n: nat) -> bool {
    exists|a: int| 0 <= a && a + at_line(n).len() <= e.len() && #[trigger] e.subrange(a, a + at_line(n).len()) == at_line(n)
}

proof fn lemma_names_line_at(prefix: Seq<char>, n: nat, rest: Seq<char>)
    ensures
        names_line(prefix + at_line(n) + rest, n),
{
    let e = prefix + at_line(n) + rest;
    let a = prefix.len() as int;
    assert(e.subrange(a, a + at_line(n).len()) =~= at_line(n));
}

/// Every complaint about a line names that line: `line N`, where `N`
/// counts every line read, the refused one included.
pub proof fn lemma_refusal_names_line(st: PoState, line: Seq<char>)
    requires
        add_line_spec(st, line).1 is Some,
    ensures
        names_line(add_line_spec(st, line).1->Some_0, st.line_number + 1),
{
    let n = st.line_number + 1;
    let e = add_line_spec(st, line).1->Some_0;
    match line_type(line) {
        LineType::Unsupported(x) => {
            reveal_strlit("Unsupported syntax found in line ");
            reveal_strlit("Unsupported syntax found in ");
            reveal_strlit("line ");
            assert("Unsupported syntax found in line "@ =~= "Unsupported syntax found in "@ + "line "@);
            assert(e =~= "Unsupported syntax found in "@ + at_line(n) + (": "@ + x));
            lemma_names_line_at("Unsupported syntax found in "@, n, ": "@ + x);
        },
        LineType::Invalid(x) => {
            reveal_strlit("Invalid syntax found in line ");
            reveal_strlit("Invalid syntax found in ");
            reveal_strlit("line ");
            assert("Invalid syntax found in line "@ =~= "Invalid syntax found in "@ + "line "@);
            assert(e =~= "Invalid syntax found in "@ + at_line(n) + (": "@ + x));
            lemma_names_line_at("Invalid syntax found in "@, n, ": "@ + x);
        },
        _ => {
            let rest = e.subrange(at_line(n).len() as int, e.len() as int);
            assert(e =~= Seq::<char>::empty() + at_line(n) + rest);
            lemma_names_line_at(Seq::<char>::empty(), n, rest);
        },
    }
}

/// A text written as the content of a C string literal: backslashes and
/// double quotes escaped with a backslash.
pub open spec fn escape(s: Seq<char>) -> Seq<char>
    decreases s.len(),
{
    if s.len() == 0 {
        Seq::empty()
    } else if s[0] == '\\' {
        seq!['\\', '\\'] + escape(s.skip(1))
    } else if s[0] == '"' {
        seq!['\\', '"'] + escape(s.skip(1))
    } else {
        seq![s[0]] + escape(s.skip(1))
    }
}

proof fn lemma_unescape_escape(s: Seq<char>)
    ensures
        unescape(escape(s)) == Ok::<Seq<char>, Seq<char>>(s),
    decreases s.len(),
{
    if s.len() > 0 {
        lemma_unescape_escape(s.skip(1));
        let e = escape(s);
        if s[0] == '\\' || s[0] == '"' {
            assert(e.skip(2) =~= escape(s.skip(1)));
            assert(e[0] == '\\' && e[1] == s[0]);
            assert(escaped_char(s[0]) == Some(s[0]));
            assert(unescape(e) == prepend_ok(seq![s[0]], unescape(e.skip(2))));
        } else {
            assert(e.skip(1) =~= escape(s.skip(1)));
            assert(e[0] == s[0]);
            assert(unescape(e) == prepend_ok(seq![s[0]], unescape(e.skip(1))));
        }
        assert(seq![s[0]] + s.skip(1) =~= s);
    } else {
        assert(s =~= Seq::<char>::empty());
        assert(escape(s) =~= Seq::<char>::empty());
    }
}

/// Escaping a text and reading it back as a C string literal gives the
/// text back.
pub proof fn lemma_c_string_round_trip(s: Seq<char>)
    ensures
        c_string_literal(seq!['"'] + escape(s) + seq!['"']) == Ok::<Seq<char>, Seq<char>>(s),
{
    let lit = seq!['"'] + escape(s) + seq!['"'];
    assert(lit.subrange(1, lit.len() - 1) =~= escape(s));
    lemma_unescape_escape(s);
}

proof fn lemma_lines_concat(a: Seq<u8>, b: Seq<u8>, cur: Seq<u8>)
    requires
        a.len() > 0,
        a.last() == 10u8,
    ensures
        lines_from(a + b, cur) == lines_from(a, cur) + lines_from(b, Seq::empty()),
    decreases a.len(),
{
    assert((a + b).drop_first() =~= a.drop_first() + b);
    assert((a + b)[0] == a[0]);
    if a[0] == 10u8 {
        if a.len() == 1 {
            assert(a.drop_first() + b =~= b);
            assert(lines_from(a.drop_first(), Seq::empty()) =~= Seq::<Seq<u8>>::empty());
            assert(lines_from(a, cur) =~= seq![cur.push(10u8)]);
        } else {
            lemma_lines_concat(a.drop_first(), b, Seq::empty());
            assert(a.drop_first().last() == a.last());
        }
        assert(lines_from(a + b, cur) =~= lines_from(a, cur) + lines_from(b, Seq::empty()));
    } else {
        assert(a.drop_first().last() == a.last());
        lemma_lines_concat(a.drop_first(), b, cur.push(a[0]));
    }
}

proof fn lemma_run_concat(st: PoState, xs: Seq<Seq<u8>>, ys: Seq<Seq<u8>>)
    ensures
        po_run(st, xs + ys) == (match po_run(st, xs) {
            Ok(s2) => po_run(s2, ys),
            Err(e) => Err(e),
        }),
    decreases xs.len(),
{
    if xs.len() == 0 {
        assert(xs + ys =~= ys);
    } else {
        assert((xs + ys).drop_first() =~= xs.drop_first() + ys);
        assert((xs + ys)[0] == xs[0]);
        let (next, err) = add_line_spec(st, decoded_line(xs[0]));
        lemma_run_concat(next, xs.drop_first(), ys);
    }
}

/// Whether two parser states differ at most in their line counters.
pub open spec fn same_but_line(a: PoState, b: PoState) -> bool {
    a.entry_state == b.entry_state && a.entries == b.entries
}

proof fn lemma_run_line_independent(a: PoState, b: PoState, raws: Seq<Seq<u8>>)
    requires
        same_but_line(a, b),
    ensures
        po_run(a, raws) is Ok <==> po_run(b, raws) is Ok,
        po_run(a, raws) is Ok ==> same_but_line(po_run(a, raws)->Ok_0, po_run(b, raws)->Ok_0),
    decreases raws.len(),
{
    if raws.len() > 0 {
        let line = decoded_line(raws[0]);
        let (na, ea) = add_line_spec(a, line);
        let (nb, eb) = add_line_spec(b, line);
        assert(ea is None <==> eb is None);
        assert(same_but_line(na, nb));
        lemma_run_line_independent(na, nb, raws.drop_first());
    }
}

/// Inserting a blank line between an entry's msgstr and the msgid that
/// directly follows it changes nothing in what the file gives: `a` is the
/// part of the file before that msgid line, `b` the part from it on.
pub proof fn lemma_blank_line_before_msgid(a: Seq<u8>, b: Seq<u8>)
    requires
        a.len() == 0 || a.last() == 10u8,
        po_file(a + b) is Ok,
        po_run(initial_state(), raw_lines(a)) matches Ok(st) && st.entry_state is StartedMsgstr,
        raw_lines(b).len() > 0,
        line_type(decoded_line(raw_lines(b)[0])) is MsgidStart,
    ensures
        po_file(a + seq![10u8] + b) == po_file(a + b),
{
    let nl: Seq<u8> = seq![10u8];
    let rb = raw_lines(b);
    let ra = raw_lines(a);
    assert((nl + b).drop_first() =~= b);
    assert((nl + b)[0] == 10u8);
    assert(Seq::<u8>::empty().push(10u8) =~= nl);
    assert(lines_from(nl + b, Seq::empty()) == seq![nl] + rb);
    if a.len() == 0 {
        assert(a + nl + b =~= nl + b);
        assert(a + b =~= b);
        assert(ra =~= Seq::<Seq<u8>>::empty());
        assert(raw_lines(a + nl + b) =~= ra + (seq![nl] + rb));
        assert(raw_lines(a + b) =~= ra + rb);
    } else {
        lemma_lines_concat(a, nl + b, Seq::empty());
        lemma_lines_concat(a, b, Seq::empty());
        assert(a + nl + b =~= a + (nl + b));
    }
    let st = po_run(initial_state(), ra)->Ok_0;
    lemma_run_concat(initial_state(), ra, seq![nl] + rb);
    lemma_run_concat(initial_state(), ra, rb);
    lemma_run_concat(st, seq![nl], rb);
    assert(ra + (seq![nl] + rb) =~= ra + seq![nl] + rb);
    // The inserted line is an empty line.
    assert(encode_utf8(seq!['\n']) =~= nl) by {
        assert(seq!['\n'].drop_first() =~= Seq::<char>::empty());
        assert(('\n' as u32) == 10u32);
        assert(((10u32 & 0x7Fu32) as u8) == 10u8) by (bit_vector);
        assert(encode_scalar(10u32) =~= nl);
        assert(encode_utf8(seq!['\n']) == encode_scalar('\n' as u32) + encode_utf8(Seq::<char>::empty()));
    }
    encode_utf8_valid_utf8(seq!['\n']);
    encode_utf8_decode_utf8(seq!['\n']);
    assert(valid_utf8(nl));
    assert(decode_utf8(nl) == seq!['\n']);
    assert(seq!['\n'].drop_last() =~= Seq::<char>::empty());
    assert(decoded_line(nl) =~= Seq::<char>::empty());
    assert(line_type(Seq::<char>::empty()) is Ignored);
    // The msgid line commits the pending entry in both files.
    let first = decoded_line(rb[0]);
    assert(valid_utf8(rb[0])) by {
        if !valid_utf8(rb[0]) {
            assert(po_run(st, rb) is Err);
        }
    }
    let (after_msgid, err1) = add_line_spec(st, first);
    assert(err1 is None) by {
        if err1 is Some {
            assert(po_run(st, rb) is Err);
        }
    }
    let (after_blank, err2) = add_line_spec(st, Seq::<char>::empty());
    assert(err2 is None);
    let (after_both, err3) = add_line_spec(after_blank, first);
    assert(err3 is None);
    assert(same_but_line(after_msgid, after_both));
    assert(po_run(after_blank, rb) == po_run(after_both, rb.drop_first()));
    assert(po_run(st, rb) == po_run(after_msgid, rb.drop_first()));
    lemma_run_line_independent(after_msgid, after_both, rb.drop_first());
    assert(seq![nl].drop_first() =~= Seq::<Seq<u8>>::empty());
    assert(seq![nl][0] == nl);
    assert(valid_utf8(seq![nl][0]));
    assert(decoded_line(seq![nl][0]) == Seq::<char>::empty());
    assert(add_line_spec(st, decoded_line(seq![nl][0])) == (after_blank, err2));
    assert(po_run(after_blank, seq![nl].drop_first()) == Ok::<PoState, Seq<char>>(after_blank));
    assert(po_run(st, seq![nl]) == Ok::<PoState, Seq<char>>(after_blank));
    assert(po_run(initial_state(), raw_lines(a + b)) == po_run(after_msgid, rb.drop_first()));
    assert(po_run(initial_state(), raw_lines(a + nl + b)) == po_run(after_both, rb.drop_first()));
    let f1 = po_run(after_msgid, rb.drop_first())->Ok_0;
    let f2 = po_run(after_both, rb.drop_first())->Ok_0;
    assert(finish_spec(f1) == finish_spec(f2));
}

/// The bytes with every line feed written as carriage return and line
/// feed.
pub open spec fn crlf(c: Seq<u8>) -> Seq<u8>
    decreases c.len(),
{
    if c.len() == 0 {
        Seq::empty()
    } else if c[0] == 10u8 {
        seq![13u8, 10u8] + crlf(c.drop_first())
    } else {
        seq![c[0]] + crlf(c.drop_first())
    }
}

/// A raw line with its line feed written as carriage return and line feed.
pub open spec fn crlf_line(l: Seq<u8>) -> Seq<u8> {
    if l.len() > 0 && l.last() == 10u8 {
        l.drop_last() + seq![13u8, 10u8]
    } else {
        l
    }
}

/// Whether the bytes hold no carriage return.
pub open spec fn no_cr(c: Seq<u8>) -> bool {
    forall|k: int| 0 <= k < c.len() ==> #[trigger] c[k] != 13u8
}

proof fn lemma_crlf_lines(c: Seq<u8>, cur: Seq<u8>)
    requires
        cur.len() == 0 || cur.last() != 10u8,
    ensures
        lines_from(crlf(c), cur) == lines_from(c, cur).map_values(|l: Seq<u8>| crlf_line(l)),
    decreases c.len(),
{
    if c.len() == 0 {
        assert(crlf(c) =~= Seq::<u8>::empty());
        if cur.len() == 0 {
            assert(lines_from(c, cur).map_values(|l: Seq<u8>| crlf_line(l)) =~= Seq::<Seq<u8>>::empty());
        } else {
            assert(crlf_line(cur) == cur);
            assert(lines_from(c, cur).map_values(|l: Seq<u8>| crlf_line(l)) =~= seq![cur]);
        }
    } else if c[0] == 10u8 {
        let x = crlf(c.drop_first());
        let t = seq![13u8, 10u8] + x;
        let u = seq![10u8] + x;
        assert(crlf(c) == t);
        assert(t[0] == 13u8);
        assert(t.drop_first() =~= u);
        assert(u[0] == 10u8);
        assert(u.drop_first() =~= x);
        assert(lines_from(t, cur) == lines_from(u, cur.push(13u8)));
        assert(lines_from(u, cur.push(13u8)) == seq![cur.push(13u8).push(10u8)] + lines_from(x, Seq::empty()));
        lemma_crlf_lines(c.drop_first(), Seq::empty());
        let rest = lines_from(c.drop_first(), Seq::empty());
        assert(lines_from(c, cur) == seq![cur.push(10u8)] + rest);
        assert(crlf_line(cur.push(10u8)) =~= cur.push(13u8).push(10u8));
        assert((seq![cur.push(10u8)] + rest).map_values(|l: Seq<u8>| crlf_line(l))
            =~= seq![cur.push(13u8).push(10u8)] + rest.map_values(|l: Seq<u8>| crlf_line(l)));
    } else {
        let x = crlf(c.drop_first());
        let t = seq![c[0]] + x;
        assert(crlf(c) == t);
        assert(t[0] == c[0]);
        assert(t.drop_first() =~= x);
        assert(lines_from(t, cur) == lines_from(x, cur.push(c[0])));
        assert(lines_from(c, cur) == lines_from(c.drop_first(), cur.push(c[0])));
        lemma_crlf_lines(c.drop_first(), cur.push(c[0]));
    }
}

proof fn lemma_lines_no_cr(c: Seq<u8>, cur: Seq<u8>)
    requires
        no_cr(c),
        no_cr(cur),
    ensures
        forall|k: int| 0 <= k < lines_from(c, cur).len() ==> no_cr(#[trigger] lines_from(c, cur)[k]),
    decreases c.len(),
{
    if c.len() == 0 {
        if cur.len() > 0 {
            assert(lines_from(c, cur) == seq![cur]);
        }
    } else {
        let rest = c.drop_first();
        assert(no_cr(rest)) by {
            assert forall|k: int| 0 <= k < rest.len() implies #[trigger] rest[k] != 13u8 by {
                assert(rest[k] == c[k + 1]);
            }
        }
        assert(no_cr(cur.push(c[0]))) by {
            assert(c[0] != 13u8);
        }
        if c[0] == 10u8 {
            lemma_lines_no_cr(rest, Seq::empty());
            let r = lines_from(c, cur);
            assert forall|k: int| 0 <= k < r.len() implies no_cr(#[trigger] r[k]) by {
                if k > 0 {
                    assert(r[k] == lines_from(rest, Seq::empty())[k - 1]);
                }
            }
        } else {
            assert(lines_from(c, cur) == lines_from(rest, cur.push(c[0])));
            lemma_lines_no_cr(rest, cur.push(c[0]));
        }
    }
}

proof fn lemma_encode_push(a: Seq<char>, c: char)
    ensures
        encode_utf8(a.push(c)) == encode_utf8(a) + encode_scalar(c as u32),
    decreases a.len(),
{
    if a.len() == 0 {
        assert(a.push(c).drop_first() =~= Seq::<char>::empty());
        assert(a.push(c)[0] == c);
        assert(encode_utf8(a) =~= Seq::<u8>::empty());
        assert(encode_utf8(Seq::<char>::empty()) =~= Seq::<u8>::empty());
        assert(encode_utf8(a.push(c)) == encode_scalar(c as u32) + encode_utf8(a.push(c).drop_first()));
        assert(encode_utf8(a.push(c)) =~= encode_utf8(a) + encode_scalar(c as u32));
    } else {
        assert(a.push(c).drop_first() =~= a.drop_first().push(c));
        assert(a.push(c)[0] == a[0]);
        lemma_encode_push(a.drop_first(), c);
        assert(encode_utf8(a.push(c)) =~= encode_utf8(a) + encode_scalar(c as u32));
    }
}

proof fn lemma_line_end_bytes()
    ensures
        valid_utf8(seq![10u8]),
        decode_utf8(seq![10u8]) == seq!['\n'],
        valid_utf8(seq![13u8, 10u8]),
        decode_utf8(seq![13u8, 10u8]) == seq!['\r', '\n'],
        encode_scalar(13u32) == seq![13u8],
{
    assert(((10u32 & 0x7Fu32) as u8) == 10u8) by (bit_vector);
    assert(((13u32 & 0x7Fu32) as u8) == 13u8) by (bit_vector);
    assert(('\n' as u32) == 10u32);
    assert(('\r' as u32) == 13u32);
    assert(encode_scalar(10u32) =~= seq![10u8]);
    assert(encode_scalar(13u32) =~= seq![13u8]);
    let one = seq!['\n'];
    let two = seq!['\r', '\n'];
    assert(one.drop_first() =~= Seq::<char>::empty());
    assert(two.drop_first() =~= one);
    assert(encode_utf8(Seq::<char>::empty()) =~= Seq::<u8>::empty());
    assert(encode_utf8(one) == encode_scalar('\n' as u32) + encode_utf8(one.drop_first()));
    assert(encode_utf8(one) =~= seq![10u8]);
    assert(encode_utf8(two) == encode_scalar('\r' as u32) + encode_utf8(two.drop_first()));
    assert(encode_utf8(two) =~= seq![13u8, 10u8]);
    encode_utf8_valid_utf8(one);
    encode_utf8_decode_utf8(one);
    encode_utf8_valid_utf8(two);
    encode_utf8_decode_utf8(two);
}

proof fn lemma_split_line_end(x: Seq<u8>, t: Seq<u8>)
    requires
        t == seq![10u8] || t == seq![13u8, 10u8],
    ensures
        valid_utf8(x + t) <==> valid_utf8(x),
        valid_utf8(x) ==> decode_utf8(x + t) == decode_utf8(x) + decode_utf8(t),
{
    lemma_line_end_bytes();
    let b = x + t;
    assert(b.subrange(0, x.len() as int) =~= x);
    assert(b.subrange(x.len() as int, b.len() as int) =~= t);
    assert(!is_continuation_byte(10u8)) by (bit_vector);
    assert(!is_continuation_byte(13u8)) by (bit_vector);
    if valid_utf8(b) {
        assert(b[x.len() as int] == t[0]);
        is_char_boundary_iff_not_is_continuation_byte(b, x.len() as int);
        valid_utf8_split(b, x.len() as int);
        decode_utf8_split(b, x.len() as int);
    }
    if valid_utf8(x) {
        valid_utf8_concat(x, t);
    }
}

proof fn lemma_crlf_line_same(l: Seq<u8>)
    requires
        no_cr(l),
    ensures
        valid_utf8(crlf_line(l)) == valid_utf8(l),
        valid_utf8(l) ==> decoded_line(crlf_line(l)) == decoded_line(l),
{
    if l.len() > 0 && l.last() == 10u8 {
        let x = l.drop_last();
        assert(x + seq![10u8] =~= l);
        lemma_line_end_bytes();
        lemma_split_line_end(x, seq![10u8]);
        lemma_split_line_end(x, seq![13u8, 10u8]);
        if valid_utf8(x) {
            let d = decode_utf8(x);
            assert((d + seq!['\r', '\n']).drop_last() =~= d.push('\r'));
            assert(d.push('\r').drop_last() =~= d);
            assert((d + seq!['\n']).drop_last() =~= d);
            if d.len() > 0 && d.last() == '\r' {
                decode_utf8_encode_utf8(x);
                assert(d.drop_last().push('\r') =~= d);
                lemma_encode_push(d.drop_last(), '\r');
                assert(('\r' as u32) == 13u32);
                let e = encode_utf8(d.drop_last());
                assert(x == e + seq![13u8]);
                assert(x[x.len() - 1] == 13u8);
                assert(l[x.len() - 1] == x[x.len() - 1]);
            }
        }
    }
}

proof fn lemma_run_crlf(st: PoState, raws: Seq<Seq<u8>>)
    requires
        forall|k: int| 0 <= k < raws.len() ==> no_cr(#[trigger] raws[k]),
    ensures
        po_run(st, raws.map_values(|l: Seq<u8>| crlf_line(l))) == po_run(st, raws),
    decreases raws.len(),
{
    if raws.len() > 0 {
        let m = raws.map_values(|l: Seq<u8>| crlf_line(l));
        assert(m.drop_first() =~= raws.drop_first().map_values(|l: Seq<u8>| crlf_line(l)));
        assert(m[0] == crlf_line(raws[0]));
        assert(no_cr(raws[0]));
        lemma_crlf_line_same(raws[0]);
        let (next, err) = add_line_spec(st, decoded_line(raws[0]));
        assert forall|k: int| 0 <= k < raws.drop_first().len() implies no_cr(#[trigger] raws.drop_first()[k]) by {
            assert(raws.drop_first()[k] == raws[k + 1]);
        }
        lemma_run_crlf(next, raws.drop_first());
    }
}

/// Writing the line feeds of a PO file without carriage returns as
/// carriage return and line feed changes nothing in what it gives.
pub proof fn lemma_crlf_same_file(c: Seq<u8>)
    requires
        no_cr(c),
    ensures
        po_file(crlf(c)) == po_file(c),
{
    lemma_crlf_lines(c, Seq::empty());
    lemma_lines_no_cr(c, Seq::empty());
    lemma_run_crlf(initial_state(), raw_lines(c));
}

} // verus!
