//! Working with whole FTL resources: parsing with readable error reports,
//! the canonical layout that the tools write, and the ids of messages.
use vstd::prelude::*;
use crate::ftl::{FtlEntry, FtlResource, ParseIssue};
use crate::syntax::{parse_ftl, serialize_ftl};
use crate::text::{chars_utf8_len, contains_str, push_char, push_decimal, push_str, str_chars, str_eq};

verus! {

// ---------------------------------------------------------------------------
// Ordering entries by id
// ---------------------------------------------------------------------------

/// Whether `a` comes strictly before `b` in lexicographic character order,
/// which is the order of their UTF-8 bytes and so the order `str` compares by.
pub open spec fn text_lt(a: Seq<char>, b: Seq<char>) -> bool
    decreases a.len(),
{
    if b.len() == 0 {
        false
    } else if a.len() == 0 {
        true
    } else if a[0] != b[0] {
        (a[0] as int) < (b[0] as int)
    } else {
        text_lt(a.drop_first(), b.drop_first())
    }
}

/// Where two texts first differ, the one with the smaller character code
/// at that place comes first.
pub proof fn lemma_text_lt_first_difference(p: Seq<char>, c: char, d: char, x: Seq<char>, y: Seq<char>)
    requires
        c != d,
    ensures
        text_lt(p + seq![c] + x, p + seq![d] + y) <==> (c as int) < (d as int),
    decreases p.len(),
{
    let a = p + seq![c] + x;
    let b = p + seq![d] + y;
    if p.len() > 0 {
        assert(a[0] == p[0] && b[0] == p[0]);
        assert(a.drop_first() =~= p.drop_first() + seq![c] + x);
        assert(b.drop_first() =~= p.drop_first() + seq![d] + y);
        lemma_text_lt_first_difference(p.drop_first(), c, d, x, y);
    } else {
        assert(a[0] == c && b[0] == d);
    }
}

/// A text comes strictly before every longer text that starts with it.
pub proof fn lemma_text_lt_proper_prefix(p: Seq<char>, c: char, x: Seq<char>)
    ensures
        text_lt(p, p + seq![c] + x),
        !text_lt(p + seq![c] + x, p),
    decreases p.len(),
{
    let b = p + seq![c] + x;
    if p.len() > 0 {
        assert(b[0] == p[0]);
        assert(b.drop_first() =~= p.drop_first() + seq![c] + x);
        lemma_text_lt_proper_prefix(p.drop_first(), c, x);
    }
}

/// Whether `a` comes strictly before `b`.
pub fn str_lt(a: &str, b: &str) -> (r: bool)
    ensures
        r == text_lt(a@, b@),
{
    let x = str_chars(a);
    let y = str_chars(b);
    let mut i: usize = 0;
    assert(x@.skip(0) =~= x@);
    assert(y@.skip(0) =~= y@);
    while i < x.len() && i < y.len() && x[i] == y[i]
        invariant
            i <= x@.len(),
            i <= y@.len(),
            text_lt(a@, b@) == text_lt(x@.skip(i as int), y@.skip(i as int)),
            x@ == a@,
            y@ == b@,
        decreases x@.len() - i,
    {
        assert(x@.skip(i as int).drop_first() =~= x@.skip(i + 1));
        assert(y@.skip(i as int).drop_first() =~= y@.skip(i + 1));
        i = i + 1;
    }
    if i == y.len() {
        false
    } else if i == x.len() {
        true
    } else {
        x[i] < y[i]
    }
}

/// The position at which `x` goes into `s` when it follows every entry
/// whose id is not after its own.
pub open spec fn insert_position(s: Seq<FtlEntry>, x: FtlEntry) -> int
    decreases s.len(),
{
    if s.len() == 0 {
        0
    } else if text_lt(x.id_view(), s.last().id_view()) {
        insert_position(s.drop_last(), x)
    } else {
        s.len() as int
    }
}

/// The entries ordered by id; entries with equal ids keep their order.
pub open spec fn sorted_by_id(s: Seq<FtlEntry>) -> Seq<FtlEntry>
    decreases s.len(),
{
    if s.len() == 0 {
        Seq::empty()
    } else {
        let rest = sorted_by_id(s.drop_last());
        rest.insert(insert_position(rest, s.last()), s.last())
    }
}

/// The id of a message or term entry.
pub fn entry_id(e: &FtlEntry) -> (id: &str)
    ensures
        id@ == e.id_view(),
{
    proof {
        reveal_strlit("");
    }
    match e {
        FtlEntry::Message(m) => m.id.as_str(),
        FtlEntry::Term(t) => t.id.as_str(),
        _ => "",
    }
}

proof fn lemma_insert_position_bound(s: Seq<FtlEntry>, x: FtlEntry)
    ensures
        0 <= insert_position(s, x) <= s.len(),
    decreases s.len(),
{
    if s.len() > 0 && text_lt(x.id_view(), s.last().id_view()) {
        lemma_insert_position_bound(s.drop_last(), x);
    }
}

/// Inserts `x` into `v` after every entry whose id is not after its own.
fn insert_by_id(v: &mut Vec<FtlEntry>, x: FtlEntry)
    ensures
        final(v)@ == old(v)@.insert(insert_position(old(v)@, x), x),
{
    let ghost s = v@;
    let mut j = v.len();
    let mut done = false;
    assert(s.take(j as int) =~= s);
    while j > 0 && !done
        invariant
            j <= v@.len(),
            v@ == s,
            insert_position(s, x) == (if done { j as int } else { insert_position(s.take(j as int), x) }),
        decreases j + (if done { 0int } else { 1int }),
    {
        if str_lt(entry_id(&x), entry_id(&v[j - 1])) {
            assert(s.take(j as int).drop_last() =~= s.take(j - 1));
            assert(s.take(j as int).last() == s[j - 1]);
            j = j - 1;
        } else {
            assert(s.take(j as int).last() == s[j - 1]);
            done = true;
        }
    }
    if !done {
        assert(s.take(0) =~= Seq::<FtlEntry>::empty());
    }
    v.insert(j, x);
}

/// The entries ordered by id; entries with equal ids keep their order.
pub fn sort_by_id(v: Vec<FtlEntry>) -> (r: Vec<FtlEntry>)
    ensures
        r@ == sorted_by_id(v@),
{
    let mut r: Vec<FtlEntry> = Vec::new();
    let ghost s = v@;
    assert(s.take(0) =~= Seq::<FtlEntry>::empty());
    for x in it: v
        invariant
            s == it.seq(),
            r@ == sorted_by_id(s.take(it.index() as int)),
    {
        let ghost i = it.index();
        assert(s.take(i + 1).drop_last() =~= s.take(i as int));
        assert(s.take(i + 1).last() == s[i as int]);
        insert_by_id(&mut r, x);
    }
    assert(s.take(s.len() as int) =~= s);
    r
}

// ---------------------------------------------------------------------------
// The canonical layout
// ---------------------------------------------------------------------------

/// Picks the resource comments (`###`).
pub open spec fn resource_comments() -> spec_fn(FtlEntry) -> bool {
    |e: FtlEntry| e is ResourceComment
}

/// Picks the terms.
pub open spec fn term_entries() -> spec_fn(FtlEntry) -> bool {
    |e: FtlEntry| e is Term
}

/// Picks the messages.
pub open spec fn message_entries() -> spec_fn(FtlEntry) -> bool {
    |e: FtlEntry| e is Message
}

/// The position of the first entry from `i` on that the layout does not
/// allow: a standalone or group comment, junk, or a resource comment after
/// the first entry of another kind (`past_header` says whether one was
/// seen before `i`). The length of `body` when there is none.
pub open spec fn first_misplaced(body: Seq<FtlEntry>, i: int, past_header: bool) -> int
    decreases body.len() - i,
{
    if i >= body.len() {
        body.len() as int
    } else {
        match body[i] {
            FtlEntry::Message(_) => first_misplaced(body, i + 1, true),
            FtlEntry::Term(_) => first_misplaced(body, i + 1, true),
            FtlEntry::ResourceComment(_) => if past_header { i } else { first_misplaced(body, i + 1, false) },
            _ => i,
        }
    }
}

/// The explanation for a standalone comment.
pub open spec fn standalone_comment_error(comment_text: Seq<char>) -> Seq<char> {
    "Found standalone comment.\nComments must either be resource-level comments (###) at the beginning of the file or attached to messages or terms by putting them directly above them.\nAffected comment:\n"@
        + comment_text
}

/// Why an entry that the layout does not allow is refused; a comment is
/// shown as the serializer writes it alone.
pub open spec fn misplaced_error(e: FtlEntry) -> Seq<char> {
    match e {
        FtlEntry::Comment(_) => standalone_comment_error(crate::syntax::ftl_serialize(seq![e], false)),
        FtlEntry::GroupComment(_) => standalone_comment_error(crate::syntax::ftl_serialize(seq![e], false)),
        FtlEntry::ResourceComment(_) => "Found resource comment after the initial section. Relevant comment:\n"@
            + crate::syntax::ftl_serialize(seq![e], false),
        FtlEntry::Junk { content } => "Resource contains junk:\n"@ + content@,
        _ => Seq::empty(),
    }
}

/// The canonical layout of a resource's entries: the resource comments of
/// the header, then the terms ordered by id, then the messages ordered by
/// id; or why the entries cannot be laid out so.
pub open spec fn format_body(body: Seq<FtlEntry>) -> Result<Seq<FtlEntry>, Seq<char>> {
    let k = first_misplaced(body, 0, false);
    if k < body.len() {
        Err(misplaced_error(body[k]))
    } else {
        Ok(body.filter(resource_comments()) + sorted_by_id(body.filter(term_entries())) + sorted_by_id(
            body.filter(message_entries()),
        ))
    }
}

/// The text the serializer writes for a resource holding only `entry`.
fn serialize_alone(entry: FtlEntry) -> (s: String)
    ensures
        s@ == crate::syntax::ftl_serialize(seq![entry], false),
{
    let single = FtlResource { body: vec![entry] };
    assert(single.body@ =~= seq![entry]);
    serialize_ftl(&single, false)
}

proof fn lemma_filter_step(s: Seq<FtlEntry>, i: int, p: spec_fn(FtlEntry) -> bool)
    requires
        0 <= i < s.len(),
    ensures
        s.take(i + 1).filter(p) == (if p(s[i]) { s.take(i).filter(p).push(s[i]) } else { s.take(i).filter(p) }),
{
    assert(s.take(i + 1) =~= s.take(i).push(s[i]));
    s.take(i).lemma_filter_push(s[i], p);
}

/// Brings a resource into the canonical layout: the resource comments at
/// its start, then the terms ordered by id, then the messages ordered by
/// id, each keeping its attached comment. Standalone and group comments,
/// junk, and resource comments after the start are refused.
pub fn format_resource(resource: FtlResource) -> (r: Result<FtlResource, String>)
    ensures
        match r {
            Ok(f) => format_body(resource.body@) == Ok::<Seq<FtlEntry>, Seq<char>>(f.body@),
            Err(e) => format_body(resource.body@) == Err::<Seq<FtlEntry>, Seq<char>>(e@),
        },
{
    let ghost body = resource.body@;
    let mut sorted_entries: Vec<FtlEntry> = Vec::new();
    let mut terms: Vec<FtlEntry> = Vec::new();
    let mut messages: Vec<FtlEntry> = Vec::new();
    let mut initial_comments_over = false;
    assert(body.take(0) =~= Seq::<FtlEntry>::empty());
    for entry in it: resource.body
        invariant
            body == it.seq(),
            first_misplaced(body, 0, false) == first_misplaced(body, it.index() as int, initial_comments_over),
            sorted_entries@ == body.take(it.index() as int).filter(resource_comments()),
            terms@ == body.take(it.index() as int).filter(term_entries()),
            messages@ == body.take(it.index() as int).filter(message_entries()),
    {
        let ghost i = it.index() as int;
        proof {
            lemma_filter_step(body, i, resource_comments());
            lemma_filter_step(body, i, term_entries());
            lemma_filter_step(body, i, message_entries());
        }
        assert(entry == body[i]);
        match entry {
            FtlEntry::Message(m) => {
                initial_comments_over = true;
                messages.push(FtlEntry::Message(m));
            },
            FtlEntry::Term(t) => {
                initial_comments_over = true;
                terms.push(FtlEntry::Term(t));
            },
            FtlEntry::Comment(c) => {
                let text = serialize_alone(FtlEntry::Comment(c));
                let mut e = "Found standalone comment.\nComments must either be resource-level comments (###) at the beginning of the file or attached to messages or terms by putting them directly above them.\nAffected comment:\n".to_owned();
                push_str(&mut e, text.as_str());
                return Err(e);
            },
            FtlEntry::GroupComment(c) => {
                let text = serialize_alone(FtlEntry::GroupComment(c));
                let mut e = "Found standalone comment.\nComments must either be resource-level comments (###) at the beginning of the file or attached to messages or terms by putting them directly above them.\nAffected comment:\n".to_owned();
                push_str(&mut e, text.as_str());
                return Err(e);
            },
            FtlEntry::ResourceComment(c) => {
                if initial_comments_over {
                    let text = serialize_alone(FtlEntry::ResourceComment(c));
                    let mut e = "Found resource comment after the initial section. Relevant comment:\n".to_owned();
                    push_str(&mut e, text.as_str());
                    return Err(e);
                }
                sorted_entries.push(FtlEntry::ResourceComment(c));
            },
            FtlEntry::Junk { content } => {
                let mut e = "Resource contains junk:\n".to_owned();
                push_str(&mut e, content.as_str());
                return Err(e);
            },
        }
    }
    assert(body.take(body.len() as int) =~= body);
    let terms = sort_by_id(terms);
    let messages = sort_by_id(messages);
    let ghost head = sorted_entries@;
    for term in it: terms
        invariant
            sorted_entries@ == head + it.seq().take(it.index() as int),
    {
        sorted_entries.push(term);
        assert(head + it.seq().take(it.index() + 1) =~= (head + it.seq().take(it.index() as int)).push(term));
    }
    let ghost mid = sorted_entries@;
    assert(mid =~= head + sorted_by_id(body.filter(term_entries())));
    for message in it: messages
        invariant
            sorted_entries@ == mid + it.seq().take(it.index() as int),
    {
        sorted_entries.push(message);
        assert(mid + it.seq().take(it.index() + 1) =~= (mid + it.seq().take(it.index() as int)).push(message));
    }
    let ghost all = sorted_entries@;
    assert(all =~= mid + sorted_by_id(body.filter(message_entries())));
    Ok(FtlResource { body: sorted_entries })
}

// ---------------------------------------------------------------------------
// Reporting parser errors
// ---------------------------------------------------------------------------

/// The lines of `c` as `str::lines` gives them for a text without carriage
/// returns; `cur` is the part of the current line read before `c`.
pub open spec fn text_lines_from(c: Seq<char>, cur: Seq<char>) -> Seq<Seq<char>>
    decreases c.len(),
{
    if c.len() == 0 {
        if cur.len() == 0 { Seq::empty() } else { seq![cur] }
    } else if c[0] == '\n' {
        seq![cur] + text_lines_from(c.drop_first(), Seq::empty())
    } else {
        text_lines_from(c.drop_first(), cur.push(c[0]))
    }
}

/// The lines of a text without carriage returns.
pub open spec fn text_lines(c: Seq<char>) -> Seq<Seq<char>> {
    text_lines_from(c, Seq::empty())
}

/// The lines, numbered from 1, that a byte range `start..end` of the text
/// touches, looking from line `k` on, where line `k` starts after `pos`
/// bytes counted as line lengths plus one newline each: every line that ends
/// after `start`, up to the first line that reaches `end`.
pub open spec fn affected_lines(lines: Seq<Seq<char>>, k: int, pos: int, start: int, end: int) -> Seq<(nat, Seq<char>)>
    decreases lines.len() - k,
{
    if k < 0 || k >= lines.len() {
        Seq::empty()
    } else {
        let next = pos + crate::text::utf8_len(lines[k]) + 1;
        let here: Seq<(nat, Seq<char>)> = if next > start { seq![((k + 1) as nat, lines[k])] } else { Seq::empty() };
        if next >= end {
            here
        } else {
            here + affected_lines(lines, k + 1, next, start, end)
        }
    }
}

/// The lines of `content` that a parser error touches.
pub open spec fn issue_lines(issue: ParseIssue, content: Seq<char>) -> Seq<(nat, Seq<char>)> {
    affected_lines(text_lines(content), 0, 0, issue.start as int, issue.end as int)
}

/// Whether a text holds a carriage return.
pub open spec fn has_carriage_return(content: Seq<char>) -> bool {
    content.contains('\r')
}

/// Whether a parser error can be reported: the text has no carriage return
/// and the error touches at least one line.
pub open spec fn issue_displayable(issue: ParseIssue, content: Seq<char>) -> bool {
    !has_carriage_return(content) && issue_lines(issue, content).len() > 0
}

/// `n` spaces.
pub open spec fn spaces(n: int) -> Seq<char>
    decreases n,
{
    if n <= 0 { Seq::empty() } else { spaces(n - 1).push(' ') }
}

/// The lines touched by an error, each as `number:text`, the numbers padded
/// on the left to `width`.
pub open spec fn numbered_lines(lines: Seq<(nat, Seq<char>)>, width: nat) -> Seq<char>
    decreases lines.len(),
{
    if lines.len() == 0 {
        Seq::empty()
    } else {
        let (n, text) = lines.last();
        numbered_lines(lines.drop_last(), width) + spaces(width - crate::text::decimal(n).len())
            + crate::text::decimal(n) + ":"@ + text + "\n"@
    }
}

/// The report on one parser error: the lines it touches, numbered, then the
/// kind of error.
pub open spec fn issue_report(issue: ParseIssue, content: Seq<char>) -> Seq<char> {
    let lines = issue_lines(issue, content);
    let width = crate::text::decimal(lines.last().0).len();
    "\n"@ + numbered_lines(lines, width) + "Reason: "@ + issue.kind@ + "\n"@
}

fn split_text_lines(c: &[char]) -> (r: Vec<Vec<char>>)
    ensures
        r@.len() == text_lines(c@).len(),
        forall|k: int| 0 <= k < r@.len() ==> #[trigger] r@[k]@ == text_lines(c@)[k],
{
    let ghost all = text_lines(c@);
    let mut lines: Vec<Vec<char>> = Vec::new();
    let mut cur: Vec<char> = Vec::new();
    let n = c.len();
    let mut i: usize = 0;
    assert(c@.skip(0) =~= c@);
    assert(all.subrange(0, all.len() as int) =~= all);
    while i < n
        invariant
            i <= n == c@.len(),
            all == text_lines(c@),
            lines@.len() <= all.len(),
            forall|k: int| 0 <= k < lines@.len() ==> #[trigger] lines@[k]@ == all[k],
            all.subrange(lines@.len() as int, all.len() as int) == text_lines_from(c@.skip(i as int), cur@),
        decreases n - i,
    {
        let ghost rest = c@.skip(i as int);
        assert(rest.drop_first() =~= c@.skip(i + 1));
        assert(rest[0] == c@[i as int]);
        if c[i] == '\n' {
            let ghost k = lines@.len() as int;
            assert(text_lines_from(rest, cur@) == seq![cur@] + text_lines_from(rest.drop_first(), Seq::empty()));
            assert(all.subrange(k, all.len() as int)[0] == all[k]);
            assert(all.subrange(k + 1, all.len() as int) =~= all.subrange(k, all.len() as int).drop_first());
            assert((seq![cur@] + text_lines_from(c@.skip(i + 1), Seq::empty())).drop_first()
                =~= text_lines_from(c@.skip(i + 1), Seq::empty()));
            lines.push(cur);
            cur = Vec::new();
            assert(cur@ =~= Seq::<char>::empty());
        } else {
            cur.push(c[i]);
        }
        i = i + 1;
    }
    assert(c@.skip(n as int) =~= Seq::<char>::empty());
    if cur.len() > 0 {
        let ghost k = lines@.len() as int;
        assert(text_lines_from(c@.skip(n as int), cur@) == seq![cur@]);
        assert(all.subrange(k, all.len() as int)[0] == all[k]);
        lines.push(cur);
    }
    lines
}

fn push_spaces(s: &mut String, n: usize)
    ensures
        final(s)@ == old(s)@ + spaces(n as int),
{
    let mut i: usize = 0;
    assert(old(s)@ =~= old(s)@ + spaces(0));
    while i < n
        invariant
            i <= n,
            s@ == old(s)@ + spaces(i as int),
        decreases n - i,
    {
        push_char(s, ' ');
        i = i + 1;
        assert(s@ =~= old(s)@ + spaces(i as int));
    }
}

fn decimal_width(n: usize) -> (w: usize)
    ensures
        w == crate::text::decimal(n as nat).len(),
        w <= n + 1,
    decreases n,
{
    if n < 10 {
        1
    } else {
        1 + decimal_width(n / 10)
    }
}

fn decimal_string(n: usize) -> (s: String)
    ensures
        s@ == crate::text::decimal(n as nat),
{
    let mut s = String::new();
    push_decimal(&mut s, n);
    assert(s@ =~= crate::text::decimal(n as nat));
    s
}

fn push_numbered_line(result: &mut String, n: usize, width: usize, line: &[char])
    ensures
        final(result)@ == old(result)@ + spaces(width - crate::text::decimal(n as nat).len())
            + crate::text::decimal(n as nat) + ":"@ + line@ + "\n"@,
{
    let num_width = decimal_width(n);
    let pad = if width >= num_width { width - num_width } else { 0 };
    push_spaces(result, pad);
    push_decimal(result, n);
    push_str(result, ":");
    let text = crate::text::string_from_chars(line);
    push_str(result, text.as_str());
    push_str(result, "\n");
}

/// Reports one parser error: the lines of `file_content` it touches,
/// numbered from 1, and the kind of error.
pub fn display_parse_error(error: &ParseIssue, file_content: &str) -> (s: String)
    requires
        issue_displayable(*error, file_content@),
    ensures
        s@ == issue_report(*error, file_content@),
{
    let chars = str_chars(file_content);
    let lines = split_text_lines(&chars);
    let ghost ls = text_lines(file_content@);
    let ghost start = error.start as int;
    let ghost end = error.end as int;
    let mut affected: Vec<(usize, usize)> = Vec::new();
    let mut pos: u128 = 0;
    let mut k: usize = 0;
    let mut stop = false;
    assert(Seq::<(nat, Seq<char>)>::empty() + affected_lines(ls, 0, 0, start, end) =~= affected_lines(ls, 0, 0, start, end));
    while k < lines.len() && !stop
        invariant
            k <= lines@.len() == ls.len(),
            forall|j: int| 0 <= j < lines@.len() ==> #[trigger] lines@[j]@ == ls[j],
            !stop ==> pos <= usize::MAX,
            forall|j: int| 0 <= j < affected@.len() ==> #[trigger] affected@[j].1 < lines@.len() && affected@[j].0 == affected@[j].1 + 1,
            issue_lines(*error, file_content@) == affected@.map_values(|p: (usize, usize)| (p.0 as nat, ls[p.1 as int]))
                + (if stop { Seq::empty() } else { affected_lines(ls, k as int, pos as int, start, end) }),
            start == error.start,
            end == error.end,
        decreases lines@.len() - k + (if stop { 0int } else { 1int }),
    {
        let ghost before = affected@.map_values(|p: (usize, usize)| (p.0 as nat, ls[p.1 as int]));
        let line_len = lines[k].len();
        let width_k = chars_utf8_len(lines[k].as_slice());
        assert(width_k <= 4 * line_len);
        let next = pos + width_k + 1;
        if next > error.start as u128 {
            affected.push((k + 1, k));
        }
        let ghost here = affected@.map_values(|p: (usize, usize)| (p.0 as nat, ls[p.1 as int]));
        proof {
            if next > error.start as u128 {
                assert(here =~= before + seq![((k + 1) as nat, ls[k as int])]);
            } else {
                assert(here =~= before);
            }
        }
        if next >= error.end as u128 {
            stop = true;
            assert(here + Seq::<(nat, Seq<char>)>::empty() =~= here);
        } else {
            assert(before + (here.subrange(before.len() as int, here.len() as int) + affected_lines(ls, k + 1, next as int, start, end))
                =~= here + affected_lines(ls, k + 1, next as int, start, end));
        }
        pos = next;
        k = k + 1;
    }
    let ghost found = affected@.map_values(|p: (usize, usize)| (p.0 as nat, ls[p.1 as int]));
    proof {
        if !stop {
            assert(affected_lines(ls, k as int, pos as int, start, end) =~= Seq::<(nat, Seq<char>)>::empty());
        }
        assert(found + Seq::<(nat, Seq<char>)>::empty() =~= found);
    }
    let last = affected[affected.len() - 1].0;
    let width = decimal_width(last);
    assert(found.last().0 == last);
    let mut result = "\n".to_owned();
    let ghost head = result@;
    let mut j: usize = 0;
    assert(found.take(0) =~= Seq::<(nat, Seq<char>)>::empty());
    while j < affected.len()
        invariant
            j <= affected@.len(),
            found == affected@.map_values(|p: (usize, usize)| (p.0 as nat, ls[p.1 as int])),
            forall|i: int| 0 <= i < affected@.len() ==> #[trigger] affected@[i].1 < lines@.len(),
            lines@.len() == ls.len(),
            forall|i: int| 0 <= i < lines@.len() ==> #[trigger] lines@[i]@ == ls[i],
            width == crate::text::decimal(last as nat).len(),
            result@ == head + numbered_lines(found.take(j as int), width as nat),
        decreases affected@.len() - j,
    {
        let (n, line_index) = affected[j];
        assert(found[j as int] == (n as nat, ls[line_index as int]));
        let ghost before = result@;
        push_numbered_line(&mut result, n, width, lines[line_index].as_slice());
        proof {
            let t = found.take(j + 1);
            assert(t.drop_last() =~= found.take(j as int));
            assert(t.last() == found[j as int]);
            assert(numbered_lines(t, width as nat) == numbered_lines(t.drop_last(), width as nat)
                + spaces(width - crate::text::decimal(t.last().0).len()) + crate::text::decimal(t.last().0) + ":"@
                + t.last().1 + "\n"@);
            assert(result@ =~= head + numbered_lines(t, width as nat));
        }
        j = j + 1;
    }
    assert(found.take(affected@.len() as int) =~= found);
    push_str(&mut result, "Reason: ");
    push_str(&mut result, error.kind.as_str());
    push_str(&mut result, "\n");
    assert(found == issue_lines(*error, file_content@));
    result
}

/// Whether every parser error can be reported.
pub open spec fn issues_displayable(issues: Seq<ParseIssue>, content: Seq<char>) -> bool {
    forall|i: int| 0 <= i < issues.len() ==> issue_displayable(#[trigger] issues[i], content)
}

/// The reports on the parser errors, one after the other.
pub open spec fn issue_reports(issues: Seq<ParseIssue>, content: Seq<char>) -> Seq<char>
    decreases issues.len(),
{
    if issues.len() == 0 {
        Seq::empty()
    } else {
        issue_reports(issues.drop_last(), content) + issue_report(issues.last(), content)
    }
}

/// The report on all parser errors of a text.
pub open spec fn errors_report(issues: Seq<ParseIssue>, content: Seq<char>) -> Seq<char> {
    "Parser errors:\n"@ + issue_reports(issues, content) + "\n"@
}

/// Reports all parser errors of `file_content`.
pub fn display_parse_errors(errors: &[ParseIssue], file_content: &str) -> (s: String)
    requires
        issues_displayable(errors@, file_content@),
    ensures
        s@ == errors_report(errors@, file_content@),
{
    let mut message = "Parser errors:\n".to_owned();
    let ghost head = message@;
    let mut i: usize = 0;
    assert(errors@.take(0) =~= Seq::<ParseIssue>::empty());
    while i < errors.len()
        invariant
            i <= errors@.len(),
            issues_displayable(errors@, file_content@),
            message@ == head + issue_reports(errors@.take(i as int), file_content@),
        decreases errors@.len() - i,
    {
        let report = display_parse_error(&errors[i], file_content);
        push_str(&mut message, report.as_str());
        assert(errors@.take(i + 1).drop_last() =~= errors@.take(i as int));
        i = i + 1;
    }
    assert(errors@.take(i as int) =~= errors@);
    push_str(&mut message, "\n");
    message
}

/// Whether a failed parse of `source` can be reported (a successful one
/// needs no report).
pub open spec fn parse_reportable(source: Seq<char>) -> bool {
    match crate::syntax::ftl_parse(source) {
        Ok(_) => true,
        Err((_, issues)) => issues_displayable(issues, source),
    }
}

/// The entries of an FTL source, or the report on its parser errors.
pub open spec fn parsed_entries(source: Seq<char>) -> Result<Seq<FtlEntry>, Seq<char>> {
    match crate::syntax::ftl_parse(source) {
        Ok(body) => Ok(body),
        Err((_, issues)) => Err(errors_report(issues, source)),
    }
}

/// Parses an FTL source; a source with errors gives the report on them.
pub fn parse_str_as_syntax_resource(input: &str) -> (r: Result<FtlResource, String>)
    requires
        parse_reportable(input@),
    ensures
        match r {
            Ok(res) => parsed_entries(input@) == Ok::<Seq<FtlEntry>, Seq<char>>(res.body@),
            Err(e) => parsed_entries(input@) == Err::<Seq<FtlEntry>, Seq<char>>(e@),
        },
{
    match parse_ftl(input) {
        Ok(res) => Ok(res),
        Err((_, errors)) => Err(display_parse_errors(errors.as_slice(), input)),
    }
}

/// Whether the parser errors of `source`, if any, can be reported.
pub fn parse_is_reportable(source: &str) -> (b: bool)
    ensures
        b == parse_reportable(source@),
{
    match parse_ftl(source) {
        Ok(_) => true,
        Err((_, errors)) => issues_are_displayable(&errors, source),
    }
}

/// Whether an FTL source parses without errors.
pub fn parse_is_ok(source: &str) -> (b: bool)
    ensures
        b == (parsed_entries(source@) is Ok),
{
    match parse_ftl(source) {
        Ok(_) => true,
        Err(_) => false,
    }
}

/// Whether every one of the parser errors can be reported on the text.
#[verifier::loop_isolation(false)]
pub fn issues_are_displayable(errors: &Vec<ParseIssue>, source: &str) -> (b: bool)
    ensures
        b == issues_displayable(errors@, source@),
{
    let chars = str_chars(source);
    let mut i: usize = 0;
    while i < chars.len()
        invariant
            i <= chars@.len(),
            chars@ == source@,
            forall|j: int| 0 <= j < i ==> chars@[j] != '\r',
        decreases chars@.len() - i,
    {
        if chars[i] == '\r' {
            assert(source@.contains('\r')) by { assert(source@[i as int] == '\r'); }
            if errors.len() == 0 {
                return true;
            }
            assert(!issue_displayable(errors@[0], source@));
            return false;
        }
        i = i + 1;
    }
    assert(!source@.contains('\r'));
    let mut k: usize = 0;
    while k < errors.len()
        invariant
            k <= errors@.len(),
            !has_carriage_return(source@),
            forall|j: int| 0 <= j < k ==> issue_displayable(#[trigger] errors@[j], source@),
        decreases errors@.len() - k,
    {
        if !touches_a_line(&errors[k], source) {
            return false;
        }
        k = k + 1;
    }
    true
}

/// Whether a parser error touches at least one line of the text.
fn touches_a_line(error: &ParseIssue, file_content: &str) -> (b: bool)
    ensures
        b == (issue_lines(*error, file_content@).len() > 0),
{
    let chars = str_chars(file_content);
    let lines = split_text_lines(&chars);
    let ghost ls = text_lines(file_content@);
    let ghost start = error.start as int;
    let ghost end = error.end as int;
    let mut pos: u128 = 0;
    let mut k: usize = 0;
    while k < lines.len()
        invariant
            k <= lines@.len() == ls.len(),
            forall|j: int| 0 <= j < lines@.len() ==> #[trigger] lines@[j]@ == ls[j],
            pos <= usize::MAX,
            pos <= start,
            issue_lines(*error, file_content@).len() > 0 <==> affected_lines(ls, k as int, pos as int, start, end).len() > 0,
            start == error.start,
            end == error.end,
        decreases lines@.len() - k,
    {
        let line_len = lines[k].len();
        let width_k = chars_utf8_len(lines[k].as_slice());
        assert(width_k <= 4 * line_len);
        let next = pos + width_k + 1;
        if next > error.start as u128 {
            return true;
        }
        if next >= error.end as u128 {
            return false;
        }
        pos = next;
        k = k + 1;
    }
    false
}

/// Writes a resource as FTL text, junk included.
pub fn serialize_resource(resource: &FtlResource) -> (s: String)
    ensures
        s@ == crate::syntax::ftl_serialize(resource.body@, true),
{
    serialize_ftl(resource, true)
}

/// Whether an FTL source is already in the canonical layout: it parses,
/// it can be laid out, and writing it out again gives the same text.
pub open spec fn formatted_check(source: Seq<char>) -> Result<bool, Seq<char>> {
    match parsed_entries(source) {
        Err(e) => Err(e),
        Ok(body) => match format_body(body) {
            Err(e) => Err(e),
            Ok(f) => Ok(crate::syntax::ftl_serialize(f, true) == source),
        },
    }
}

/// Checks whether an FTL source is in the canonical layout.
pub fn is_formatted(ftl_data: &str) -> (r: Result<bool, String>)
    requires
        parse_reportable(ftl_data@),
    ensures
        match r {
            Ok(b) => formatted_check(ftl_data@) == Ok::<bool, Seq<char>>(b),
            Err(e) => formatted_check(ftl_data@) == Err::<bool, Seq<char>>(e@),
        },
{
    let resource = parse_str_as_syntax_resource(ftl_data)?;
    let formatted_resource = format_resource(resource)?;
    let formatted_resource_text = serialize_resource(&formatted_resource);
    Ok(str_eq(formatted_resource_text.as_str(), ftl_data))
}

/// Whether some message of the body has the id.
pub open spec fn has_message_id(body: Seq<FtlEntry>, id: Seq<char>) -> bool {
    exists|i: int| 0 <= i < body.len() && #[trigger] crate::ftl::message_id(body[i]) == Some(id)
}

/// The ids of the messages of a body, each once, in the order of their
/// first appearance.
pub open spec fn distinct_message_ids(body: Seq<FtlEntry>) -> Seq<Seq<char>>
    decreases body.len(),
{
    if body.len() == 0 {
        Seq::empty()
    } else {
        let before = distinct_message_ids(body.drop_last());
        match crate::ftl::message_id(body.last()) {
            Some(id) => if before.contains(id) { before } else { before.push(id) },
            None => before,
        }
    }
}

/// The ids listed are exactly the ids of the messages, each listed once.
pub proof fn lemma_distinct_message_ids(body: Seq<FtlEntry>)
    ensures
        forall|id: Seq<char>| #[trigger] distinct_message_ids(body).contains(id) <==> has_message_id(body, id),
        forall|i: int, j: int| 0 <= i < j < distinct_message_ids(body).len()
            ==> distinct_message_ids(body)[i] != distinct_message_ids(body)[j],
    decreases body.len(),
{
    if body.len() > 0 {
        let rest = body.drop_last();
        lemma_distinct_message_ids(rest);
        let before = distinct_message_ids(rest);
        assert forall|id: Seq<char>| #[trigger] distinct_message_ids(body).contains(id) <==> has_message_id(body, id) by {
            if has_message_id(body, id) {
                let i = choose|i: int| 0 <= i < body.len() && #[trigger] crate::ftl::message_id(body[i]) == Some(id);
                if i < body.len() - 1 {
                    assert(rest[i] == body[i]);
                    assert(has_message_id(rest, id));
                    assert(before.contains(id));
                    if !(distinct_message_ids(body) == before) {
                        assert(distinct_message_ids(body) == before.push(crate::ftl::message_id(body.last())->Some_0));
                        let k = choose|k: int| 0 <= k < before.len() && before[k] == id;
                        assert(distinct_message_ids(body)[k] == id);
                    }
                } else {
                    assert(body.last() == body[i]);
                    if !before.contains(id) {
                        assert(distinct_message_ids(body) == before.push(id));
                        assert(distinct_message_ids(body)[before.len() as int] == id);
                    }
                }
            }
            if distinct_message_ids(body).contains(id) {
                let k = choose|k: int| 0 <= k < distinct_message_ids(body).len() && distinct_message_ids(body)[k] == id;
                if k < before.len() {
                    assert(before[k] == id);
                    assert(before.contains(id));
                    let i = choose|i: int| 0 <= i < rest.len() && #[trigger] crate::ftl::message_id(rest[i]) == Some(id);
                    assert(body[i] == rest[i]);
                } else {
                    assert(crate::ftl::message_id(body[body.len() - 1]) == Some(id));
                }
            }
        }
    }
}

/// The ids of the messages of a resource, each once, in the order of their
/// first appearance.
pub fn get_message_ids(resource: &FtlResource) -> (ids: Vec<String>)
    ensures
        crate::cli::views(ids@) == distinct_message_ids(resource.body@),
{
    let ghost body = resource.body@;
    let mut ids: Vec<String> = Vec::new();
    let mut i: usize = 0;
    assert(crate::cli::views(ids@) =~= distinct_message_ids(body.take(0)));
    while i < resource.body.len()
        invariant
            i <= body.len(),
            body == resource.body@,
            crate::cli::views(ids@) == distinct_message_ids(body.take(i as int)),
        decreases body.len() - i,
    {
        let ghost vs = crate::cli::views(ids@);
        assert(body.take(i + 1).drop_last() =~= body.take(i as int));
        assert(body.take(i + 1).last() == body[i as int]);
        match &resource.body[i] {
            FtlEntry::Message(m) => {
                let known = contains_str(&ids, m.id.as_str());
                proof {
                    if known {
                        let k = choose|k: int| 0 <= k < ids@.len() && #[trigger] ids@[k]@ == m.id@;
                        assert(vs[k] == m.id@);
                    } else {
                        assert forall|k: int| 0 <= k < vs.len() implies vs[k] != m.id@ by {
                            assert(ids@[k]@ == vs[k]);
                        }
                    }
                }
                if !known {
                    ids.push(m.id.clone());
                    assert(crate::cli::views(ids@) =~= vs.push(m.id@));
                }
            },
            _ => {},
        }
        i = i + 1;
    }
    assert(body.take(i as int) =~= body);
    ids
}

} // verus!
