//! Finding the messages that a translation lacks compared with the file of
//! reference.
use vstd::prelude::*;
use crate::cli::views;
use crate::resource::{get_message_ids, parse_is_reportable, parse_str_as_syntax_resource, str_lt};
use crate::text::{contains_str, push_str};

verus! {

/// The position at which `x` goes into `s` when it follows every text that
/// is not after it.
pub open spec fn text_insert_position(s: Seq<Seq<char>>, x: Seq<char>) -> int
    decreases s.len(),
{
    if s.len() == 0 {
        0
    } else if crate::resource::text_lt(x, s.last()) {
        text_insert_position(s.drop_last(), x)
    } else {
        s.len() as int
    }
}

/// The texts in lexicographic order; equal texts keep their order.
pub open spec fn sorted_texts(s: Seq<Seq<char>>) -> Seq<Seq<char>>
    decreases s.len(),
{
    if s.len() == 0 {
        Seq::empty()
    } else {
        let rest = sorted_texts(s.drop_last());
        rest.insert(text_insert_position(rest, s.last()), s.last())
    }
}

proof fn lemma_text_insert_position_bound(s: Seq<Seq<char>>, x: Seq<char>)
    ensures
        0 <= text_insert_position(s, x) <= s.len(),
    decreases s.len(),
{
    if s.len() > 0 && crate::resource::text_lt(x, s.last()) {
        lemma_text_insert_position_bound(s.drop_last(), x);
    }
}

fn insert_text(v: &mut Vec<String>, x: String)
    ensures
        views(final(v)@) == views(old(v)@).insert(text_insert_position(views(old(v)@), x@), x@),
{
    let ghost s = views(v@);
    let mut j = v.len();
    let mut done = false;
    assert(s.take(j as int) =~= s);
    while j > 0 && !done
        invariant
            j <= v@.len(),
            s == views(v@),
            v@ == old(v)@,
            text_insert_position(s, x@) == (if done { j as int } else { text_insert_position(s.take(j as int), x@) }),
        decreases j + (if done { 0int } else { 1int }),
    {
        if str_lt(x.as_str(), v[j - 1].as_str()) {
            assert(s.take(j as int).drop_last() =~= s.take(j - 1));
            assert(s.take(j as int).last() == s[j - 1]);
            j = j - 1;
        } else {
            assert(s.take(j as int).last() == s[j - 1]);
            done = true;
        }
    }
    if !done {
        assert(s.take(0) =~= Seq::<Seq<char>>::empty());
    }
    proof {
        lemma_text_insert_position_bound(s, x@);
    }
    v.insert(j, x);
    assert(views(v@) =~= s.insert(j as int, x@));
}

/// The strings in lexicographic order.
pub fn sort_texts(v: Vec<String>) -> (r: Vec<String>)
    ensures
        views(r@) == sorted_texts(views(v@)),
{
    let ghost s = views(v@);
    let mut r: Vec<String> = Vec::new();
    assert(s.take(0) =~= Seq::<Seq<char>>::empty());
    assert(views(r@) =~= Seq::<Seq<char>>::empty());
    for x in it: v
        invariant
            s == views(it.seq()),
            views(r@) == sorted_texts(s.take(it.index() as int)),
    {
        let ghost i = it.index();
        assert(s.take(i + 1).drop_last() =~= s.take(i as int));
        assert(s.take(i + 1).last() == s[i as int]);
        insert_text(&mut r, x);
    }
    assert(s.take(s.len() as int) =~= s);
    r
}

/// The expected ids that the body has no message for, in lexicographic
/// order.
pub open spec fn missing_ids(expected: Seq<Seq<char>>, body: Seq<crate::ftl::FtlEntry>) -> Seq<Seq<char>> {
    sorted_texts(expected.filter(lacks_message(body)))
}

/// Picks the ids that the body has no message for.
pub open spec fn lacks_message(body: Seq<crate::ftl::FtlEntry>) -> spec_fn(Seq<char>) -> bool {
    |id: Seq<char>| !crate::resource::has_message_id(body, id)
}

/// What checking a source against the expected ids gives: the missing ids,
/// or the report on the source's parser errors.
pub open spec fn missing_in_source(expected: Seq<Seq<char>>, source: Seq<char>) -> Result<Seq<Seq<char>>, Seq<char>> {
    match crate::resource::parsed_entries(source) {
        Err(e) => Err(e),
        Ok(body) => Ok(missing_ids(expected, body)),
    }
}

/// The expected ids that the FTL source has no message for, in strictly
/// ascending lexicographic order. The expected ids are a set: none occurs
/// twice.
pub fn find_missing_message_ids(expected_ids: &Vec<String>, source: &str) -> (r: Result<Vec<String>, String>)
    requires
        views(expected_ids@).no_duplicates(),
        crate::resource::parse_reportable(source@),
    ensures
        match r {
            Ok(m) => missing_in_source(views(expected_ids@), source@) == Ok::<Seq<Seq<char>>, Seq<char>>(views(m@)),
            Err(e) => missing_in_source(views(expected_ids@), source@) == Err::<Seq<Seq<char>>, Seq<char>>(e@),
        },
        r matches Ok(m) ==> forall|i: int, j: int| 0 <= i < j < m@.len()
            ==> crate::resource::text_lt((#[trigger] m@[i])@, (#[trigger] m@[j])@),
{
    let resource = parse_str_as_syntax_resource(source)?;
    let ghost body = resource.body@;
    let ghost ex = views(expected_ids@);
    let present_ids = get_message_ids(&resource);
    let mut missing: Vec<String> = Vec::new();
    let mut i: usize = 0;
    assert(ex.take(0) =~= Seq::<Seq<char>>::empty());
    assert(views(missing@) =~= Seq::<Seq<char>>::empty());
    while i < expected_ids.len()
        invariant
            i <= expected_ids@.len(),
            ex == views(expected_ids@),
            views(present_ids@) == crate::resource::distinct_message_ids(body),
            views(missing@) == ex.take(i as int).filter(lacks_message(body)),
        decreases expected_ids@.len() - i,
    {
        let id = &expected_ids[i];
        let present = contains_str(&present_ids, id.as_str());
        proof {
            crate::resource::lemma_distinct_message_ids(body);
            if present {
                let k = choose|k: int| 0 <= k < present_ids@.len() && #[trigger] present_ids@[k]@ == id@;
                assert(views(present_ids@)[k] == id@);
                assert(crate::resource::distinct_message_ids(body).contains(id@));
            } else {
                assert forall|k: int| 0 <= k < views(present_ids@).len() implies views(present_ids@)[k] != id@ by {
                    assert(present_ids@[k]@ == views(present_ids@)[k]);
                }
            }
            assert(crate::resource::distinct_message_ids(body).contains(id@) == present);
            assert(lacks_message(body)(id@) == !present);
            assert(ex.take(i + 1) =~= ex.take(i as int).push(ex[i as int]));
            ex.take(i as int).lemma_filter_push(ex[i as int], lacks_message(body));
        }
        if !present {
            missing.push(id.clone());
            assert(views(missing@) =~= ex.take(i as int).filter(lacks_message(body)).push(id@));
        }
        i = i + 1;
    }
    assert(ex.take(i as int) =~= ex);
    let sorted = sort_texts(missing);
    proof {
        lemma_missing_ids_ascending(ex, body);
        assert forall|i: int, j: int| 0 <= i < j < sorted@.len()
            implies crate::resource::text_lt((#[trigger] sorted@[i])@, (#[trigger] sorted@[j])@) by {
            assert(views(sorted@)[i] == sorted@[i]@ && views(sorted@)[j] == sorted@[j]@);
        }
    }
    Ok(sorted)
}

/// The section of the report for one file that lacks messages.
pub open spec fn missing_section(path: Seq<char>, ids: Seq<Seq<char>>) -> Seq<char> {
    "Message IDs missing in "@ + path + ":\n"@ + id_lines(ids) + "\n"@
}

/// The ids, each followed by a line break.
pub open spec fn id_lines(ids: Seq<Seq<char>>) -> Seq<char>
    decreases ids.len(),
{
    if ids.len() == 0 {
        Seq::empty()
    } else {
        id_lines(ids.drop_last()) + ids.last() + "\n"@
    }
}

/// The view of a content or the error met reading it.
pub open spec fn content_view(c: Result<String, String>) -> Result<Seq<char>, Seq<char>> {
    match c {
        Ok(s) => Ok(s@),
        Err(e) => Err(e@),
    }
}

/// The views of `(path, content or read error)` pairs.
pub open spec fn files_view(files: Seq<(String, Result<String, String>)>) -> Seq<(Seq<char>, Result<Seq<char>, Seq<char>>)> {
    files.map_values(|f: (String, Result<String, String>)| (f.0@, match f.1 {
        Ok(c) => Ok(c@),
        Err(e) => Err(e@),
    }))
}

/// The report on the files to check, one section per file that lacks
/// messages, or the first error met reading or parsing them.
pub open spec fn missing_report(expected: Seq<Seq<char>>, files: Seq<(Seq<char>, Result<Seq<char>, Seq<char>>)>) -> Result<Seq<char>, Seq<char>>
    decreases files.len(),
{
    if files.len() == 0 {
        Ok(Seq::empty())
    } else {
        match missing_report(expected, files.drop_last()) {
            Err(e) => Err(e),
            Ok(before) => {
                let (path, content) = files.last();
                match content {
                    Err(e) => Err(e),
                    Ok(source) => match missing_in_source(expected, source) {
                        Err(e) => Err(e),
                        Ok(ids) => if ids.len() == 0 { Ok(before) } else { Ok(before + missing_section(path, ids)) },
                    },
                }
            },
        }
    }
}

/// What checking the files against the file of reference gives: nothing
/// when no message is missing, the report otherwise, or the first error.
pub open spec fn missing_outcome(expected: Result<Seq<char>, Seq<char>>, files: Seq<(Seq<char>, Result<Seq<char>, Seq<char>>)>) -> Result<Option<Seq<char>>, Seq<char>> {
    match expected {
        Err(e) => Err(e),
        Ok(source) => match crate::resource::parsed_entries(source) {
            Err(e) => Err(e),
            Ok(body) => match missing_report(crate::resource::distinct_message_ids(body), files) {
                Err(e) => Err(e),
                Ok(report) => if report.len() == 0 { Ok(None) } else { Ok(Some(report)) },
            },
        },
    }
}

/// Whether a content, if it was read, can have its parser errors reported.
pub open spec fn content_reportable(content: Result<Seq<char>, Seq<char>>) -> bool {
    match content {
        Ok(s) => crate::resource::parse_reportable(s),
        Err(_) => true,
    }
}

/// Whether every source that gets parsed, up to the first error, can have
/// its parser errors reported.
pub open spec fn sources_reportable(expected: Result<Seq<char>, Seq<char>>, files: Seq<(Seq<char>, Result<Seq<char>, Seq<char>>)>) -> bool {
    &&& content_reportable(expected)
    &&& match expected {
        Ok(source) => match crate::resource::parsed_entries(source) {
            Ok(body) => forall|i: int| 0 <= i < files.len()
                && missing_report(crate::resource::distinct_message_ids(body), files.take(i)) is Ok
                ==> content_reportable((#[trigger] files[i]).1),
            Err(_) => true,
        },
        Err(_) => true,
    }
}

proof fn lemma_report_error_sticks(ex: Seq<Seq<char>>, files: Seq<(Seq<char>, Result<Seq<char>, Seq<char>>)>, n: int, m: int)
    requires
        0 <= n <= m <= files.len(),
        missing_report(ex, files.take(n)) is Err,
    ensures
        missing_report(ex, files.take(m)) == missing_report(ex, files.take(n)),
    decreases m - n,
{
    if m > n {
        lemma_report_error_sticks(ex, files, n, m - 1);
        assert(files.take(m).drop_last() =~= files.take(m - 1));
    }
}

/// The loop of `find_missing_message_ids_in_files`; with `check`, it first
/// makes sure that each source it parses can have its parser errors
/// reported, and gives nothing at the first that cannot.
#[verifier::loop_isolation(false)]
fn find_missing(
    expected: Result<String, String>,
    to_check: &Vec<(String, Result<String, String>)>,
    check: bool,
) -> (r: Option<Result<Option<String>, String>>)
    requires
        !check ==> sources_reportable(content_view(expected), files_view(to_check@)),
    ensures
        r is None <==> !sources_reportable(content_view(expected), files_view(to_check@)),
        r matches Some(x) ==> ({
            let outcome = missing_outcome(content_view(expected), files_view(to_check@));
            match x {
                Ok(None) => outcome == Ok::<Option<Seq<char>>, Seq<char>>(None),
                Ok(Some(m)) => outcome == Ok::<Option<Seq<char>>, Seq<char>>(Some(m@)),
                Err(e) => outcome == Err::<Option<Seq<char>>, Seq<char>>(e@),
            }
        }),
{
    let ghost files = files_view(to_check@);
    let ghost ev = content_view(expected);
    let expected_text = match expected {
        Ok(t) => t,
        Err(e) => {
            return Some(Err(e));
        },
    };
    if check && !crate::resource::parse_is_reportable(expected_text.as_str()) {
        return None;
    }
    let expected_resource = match parse_str_as_syntax_resource(expected_text.as_str()) {
        Ok(r) => r,
        Err(e) => {
            return Some(Err(e));
        },
    };
    let expected_ids = get_message_ids(&expected_resource);
    let ghost ex = views(expected_ids@);
    proof {
        crate::resource::lemma_distinct_message_ids(expected_resource.body@);
        assert forall|a: int, b: int| 0 <= a < ex.len() && 0 <= b < ex.len() && a != b implies ex[a] != ex[b] by {
            if a > b {
                assert(ex[b] != ex[a]);
            }
        }
    }
    let mut missing_message = String::new();
    let mut i: usize = 0;
    assert(files.take(0) =~= Seq::<(Seq<char>, Result<Seq<char>, Seq<char>>)>::empty());
    while i < to_check.len()
        invariant
            i <= to_check@.len(),
            files == files_view(to_check@),
            missing_report(ex, files.take(i as int)) == Ok::<Seq<char>, Seq<char>>(missing_message@),
            forall|j: int| 0 <= j < i ==> content_reportable((#[trigger] files[j]).1),
        decreases to_check@.len() - i,
    {
        assert(files.take(i + 1).drop_last() =~= files.take(i as int));
        assert(files.take(i + 1).last() == files[i as int]);
        let (path, content) = &to_check[i];
        let text = match content {
            Ok(t) => t,
            Err(e) => {
                proof {
                    lemma_report_error_sticks(ex, files, i + 1, files.len() as int);
                    assert(files.take(files.len() as int) =~= files);
                    assert forall|j: int| 0 <= j < files.len() && missing_report(ex, files.take(j)) is Ok
                        implies content_reportable((#[trigger] files[j]).1) by {
                        if j > i {
                            lemma_report_error_sticks(ex, files, i + 1, j);
                        }
                    }
                }
                return Some(Err(e.clone()));
            },
        };
        assert(files[i as int].1 == Ok::<Seq<char>, Seq<char>>(text@));
        if check && !crate::resource::parse_is_reportable(text.as_str()) {
            return None;
        }
        assert(content_reportable(files[i as int].1));
        let missing_ids = match find_missing_message_ids(&expected_ids, text.as_str()) {
            Ok(m) => m,
            Err(e) => {
                proof {
                    lemma_report_error_sticks(ex, files, i + 1, files.len() as int);
                    assert(files.take(files.len() as int) =~= files);
                    assert forall|j: int| 0 <= j < files.len() && missing_report(ex, files.take(j)) is Ok
                        implies content_reportable((#[trigger] files[j]).1) by {
                        if j > i {
                            lemma_report_error_sticks(ex, files, i + 1, j);
                        }
                    }
                }
                return Some(Err(e));
            },
        };
        if missing_ids.len() > 0 {
            let ghost before = missing_message@;
            push_str(&mut missing_message, "Message IDs missing in ");
            push_str(&mut missing_message, path.as_str());
            push_str(&mut missing_message, ":\n");
            let ghost head = missing_message@;
            let ghost ids = views(missing_ids@);
            let mut k: usize = 0;
            assert(ids.take(0) =~= Seq::<Seq<char>>::empty());
            while k < missing_ids.len()
                invariant
                    k <= missing_ids@.len(),
                    ids == views(missing_ids@),
                    missing_message@ == head + id_lines(ids.take(k as int)),
                decreases missing_ids@.len() - k,
            {
                push_str(&mut missing_message, missing_ids[k].as_str());
                push_str(&mut missing_message, "\n");
                assert(ids.take(k + 1).drop_last() =~= ids.take(k as int));
                k = k + 1;
            }
            assert(ids.take(k as int) =~= ids);
            push_str(&mut missing_message, "\n");
            assert(missing_message@ =~= before + missing_section(path@, ids));
        }
        i = i + 1;
    }
    assert(files.take(i as int) =~= files);
    if missing_message.as_str().is_empty() {
        Some(Ok(None))
    } else {
        Some(Ok(Some(missing_message)))
    }
}

/// Lists, for each file to check, the message ids of the file of reference
/// that it lacks. `expected` is the content of the file of reference, or the
/// error met reading it; each file to check comes as the way its path is
/// shown and its content or the error met reading it.
pub fn find_missing_message_ids_in_files(
    expected: Result<String, String>,
    to_check: &Vec<(String, Result<String, String>)>,
) -> (r: Result<Option<String>, String>)
    requires
        sources_reportable(content_view(expected), files_view(to_check@)),
    ensures
        ({
            let outcome = missing_outcome(content_view(expected), files_view(to_check@));
            match r {
                Ok(None) => outcome == Ok::<Option<Seq<char>>, Seq<char>>(None),
                Ok(Some(m)) => outcome == Ok::<Option<Seq<char>>, Seq<char>>(Some(m@)),
                Err(e) => outcome == Err::<Option<Seq<char>>, Seq<char>>(e@),
            }
        }),
{
    match find_missing(expected, to_check, false) {
        Some(x) => x,
        None => Err(String::new()),
    }
}

/// `find_missing_message_ids_in_files` where every source it parses can
/// have its parser errors reported; nothing where reporting them would fail.
pub fn find_missing_message_ids_in_files_checked(
    expected: Result<String, String>,
    to_check: &Vec<(String, Result<String, String>)>,
) -> (r: Option<Result<Option<String>, String>>)
    ensures
        r is None <==> !sources_reportable(content_view(expected), files_view(to_check@)),
        r matches Some(x) ==> ({
            let outcome = missing_outcome(content_view(expected), files_view(to_check@));
            match x {
                Ok(None) => outcome == Ok::<Option<Seq<char>>, Seq<char>>(None),
                Ok(Some(m)) => outcome == Ok::<Option<Seq<char>>, Seq<char>>(Some(m@)),
                Err(e) => outcome == Err::<Option<Seq<char>>, Seq<char>>(e@),
            }
        }),
{
    find_missing(expected, to_check, true)
}

/// Whether no text comes after a later one.
pub open spec fn texts_sorted(s: Seq<Seq<char>>) -> bool {
    forall|i: int, j: int| 0 <= i < j < s.len() ==> crate::layout::text_le(#[trigger] s[i], #[trigger] s[j])
}

proof fn lemma_text_insert_position(s: Seq<Seq<char>>, x: Seq<char>)
    ensures
        0 <= text_insert_position(s, x) <= s.len(),
        forall|k: int| text_insert_position(s, x) <= k < s.len() ==> crate::resource::text_lt(x, #[trigger] s[k]),
        text_insert_position(s, x) > 0 ==> crate::layout::text_le(s[text_insert_position(s, x) - 1], x),
    decreases s.len(),
{
    if s.len() > 0 && crate::resource::text_lt(x, s.last()) {
        lemma_text_insert_position(s.drop_last(), x);
        let p = text_insert_position(s, x);
        assert forall|k: int| p <= k < s.len() implies crate::resource::text_lt(x, #[trigger] s[k]) by {
            if k < s.len() - 1 {
                assert(s[k] == s.drop_last()[k]);
            }
        }
        if p > 0 {
            assert(s[p - 1] == s.drop_last()[p - 1]);
        }
    }
}

/// Sorting texts gives the same texts, each as often, in lexicographic
/// order.
pub proof fn lemma_sorted_texts(s: Seq<Seq<char>>)
    ensures
        texts_sorted(sorted_texts(s)),
        sorted_texts(s).to_multiset() == s.to_multiset(),
    decreases s.len(),
{
    broadcast use vstd::seq_lib::group_to_multiset_ensures;
    if s.len() > 0 {
        let rest = sorted_texts(s.drop_last());
        let x = s.last();
        lemma_sorted_texts(s.drop_last());
        lemma_text_insert_position(rest, x);
        let p = text_insert_position(rest, x);
        let r = rest.insert(p, x);
        assert forall|i: int, j: int| 0 <= i < j < r.len() implies crate::layout::text_le(#[trigger] r[i], #[trigger] r[j]) by {
            if j < p {
                assert(r[i] == rest[i] && r[j] == rest[j]);
            } else if j == p {
                assert(r[j] == x);
                assert(r[i] == rest[i]);
                if i < p - 1 {
                    crate::layout::lemma_text_order(x, rest[p - 1], rest[i]);
                    crate::layout::lemma_text_order(rest[p - 1], rest[i], x);
                    crate::layout::lemma_text_order(x, rest[i], rest[p - 1]);
                    crate::layout::lemma_text_order(rest[i], rest[p - 1], x);
                }
            } else if i == p {
                assert(r[i] == x);
                assert(r[j] == rest[j - 1]);
                crate::layout::lemma_text_order(x, rest[j - 1], x);
            } else if i < p {
                assert(r[i] == rest[i] && r[j] == rest[j - 1]);
            } else {
                assert(r[i] == rest[i - 1] && r[j] == rest[j - 1]);
            }
        }
        assert(s.drop_last().push(x) =~= s);
    }
}

/// An id is listed as missing exactly when the file of reference has it
/// and the checked file has no message with it; the list is in
/// lexicographic order.
pub proof fn lemma_missing_ids(expected: Seq<Seq<char>>, body: Seq<crate::ftl::FtlEntry>, x: Seq<char>)
    ensures
        missing_ids(expected, body).contains(x) <==> expected.contains(x) && !crate::resource::has_message_id(body, x),
        texts_sorted(missing_ids(expected, body)),
{
    broadcast use vstd::seq_lib::group_to_multiset_ensures;
    let f = expected.filter(lacks_message(body));
    lemma_sorted_texts(f);
    if missing_ids(expected, body).contains(x) {
        assert(missing_ids(expected, body).to_multiset().count(x) > 0);
        assert(f.contains(x));
        expected.lemma_filter_contains_rev(lacks_message(body), x);
        let k = choose|k: int| 0 <= k < f.len() && f[k] == x;
        expected.lemma_filter_pred(lacks_message(body), k);
    }
    if expected.contains(x) && !crate::resource::has_message_id(body, x) {
        let k = choose|k: int| 0 <= k < expected.len() && expected[k] == x;
        expected.lemma_filter_contains(lacks_message(body), k);
        assert(f.to_multiset().count(x) > 0);
        assert(missing_ids(expected, body).to_multiset().count(x) > 0);
    }
}

proof fn lemma_filter_no_duplicates(s: Seq<Seq<char>>, p: spec_fn(Seq<char>) -> bool)
    requires
        s.no_duplicates(),
    ensures
        s.filter(p).no_duplicates(),
    decreases s.len(),
{
    if s.len() > 0 {
        let init = s.drop_last();
        assert(init.no_duplicates()) by {
            assert forall|i: int, j: int| 0 <= i < init.len() && 0 <= j < init.len() && i != j implies init[i] != init[j] by {
                assert(init[i] == s[i] && init[j] == s[j]);
            }
        }
        lemma_filter_no_duplicates(init, p);
        assert(init.push(s.last()) =~= s);
        init.lemma_filter_push(s.last(), p);
        let f = init.filter(p);
        if p(s.last()) {
            let r = f.push(s.last());
            assert forall|i: int, j: int| 0 <= i < r.len() && 0 <= j < r.len() && i != j implies r[i] != r[j] by {
                if i == f.len() || j == f.len() {
                    let k = if i == f.len() { j } else { i };
                    assert(r[k] == f[k]);
                    assert(f.contains(f[k]));
                    init.lemma_filter_contains_rev(p, f[k]);
                    let m = choose|m: int| 0 <= m < init.len() && init[m] == f[k];
                    assert(s[m] == init[m]);
                    assert(s[s.len() - 1] == s.last());
                } else {
                    assert(r[i] == f[i] && r[j] == f[j]);
                }
            }
        }
    }
}

/// When the file of reference lists each id once, the missing ids come out
/// in strictly ascending order, each once.
pub proof fn lemma_missing_ids_ascending(expected: Seq<Seq<char>>, body: Seq<crate::ftl::FtlEntry>)
    requires
        expected.no_duplicates(),
    ensures
        missing_ids(expected, body).no_duplicates(),
        forall|i: int, j: int| 0 <= i < j < missing_ids(expected, body).len()
            ==> crate::resource::text_lt(#[trigger] missing_ids(expected, body)[i], #[trigger] missing_ids(expected, body)[j]),
{
    broadcast use vstd::multiset::group_multiset_axioms;
    let f = expected.filter(lacks_message(body));
    let r = missing_ids(expected, body);
    lemma_filter_no_duplicates(expected, lacks_message(body));
    lemma_sorted_texts(f);
    f.lemma_multiset_has_no_duplicates();
    r.lemma_multiset_has_no_duplicates_conv();
    assert forall|i: int, j: int| 0 <= i < j < r.len() implies crate::resource::text_lt(#[trigger] r[i], #[trigger] r[j]) by {
        crate::layout::lemma_text_order(r[i], r[j], r[i]);
    }
}

/// Whether a file to check could not be read, or its source not parsed.
pub open spec fn file_fails(content: Result<Seq<char>, Seq<char>>) -> bool {
    match content {
        Err(_) => true,
        Ok(source) => crate::resource::parsed_entries(source) is Err,
    }
}

/// Whether a file to check was read and parsed, and has a message for each
/// of the expected ids.
pub open spec fn file_complete(expected: Seq<Seq<char>>, content: Result<Seq<char>, Seq<char>>) -> bool {
    match content {
        Err(_) => false,
        Ok(source) => match crate::resource::parsed_entries(source) {
            Err(_) => false,
            Ok(body) => forall|x: Seq<char>| #[trigger] expected.contains(x) ==> crate::resource::has_message_id(body, x),
        },
    }
}

/// Whether a file to check was read and parsed, and has a message for each
/// message id of the body of reference.
pub open spec fn has_messages_of(reference: Seq<crate::ftl::FtlEntry>, content: Result<Seq<char>, Seq<char>>) -> bool {
    match content {
        Err(_) => false,
        Ok(source) => match crate::resource::parsed_entries(source) {
            Err(_) => false,
            Ok(body) => forall|x: Seq<char>| crate::resource::has_message_id(reference, x)
                ==> #[trigger] crate::resource::has_message_id(body, x),
        },
    }
}

proof fn lemma_nothing_missing_iff(expected: Seq<Seq<char>>, body: Seq<crate::ftl::FtlEntry>)
    ensures
        missing_ids(expected, body).len() == 0
            <==> forall|x: Seq<char>| #[trigger] expected.contains(x) ==> crate::resource::has_message_id(body, x),
{
    let m = missing_ids(expected, body);
    if m.len() > 0 {
        lemma_missing_ids(expected, body, m[0]);
        assert(m.contains(m[0]));
    } else {
        assert forall|x: Seq<char>| #[trigger] expected.contains(x) implies crate::resource::has_message_id(body, x) by {
            lemma_missing_ids(expected, body, x);
        }
    }
}

proof fn lemma_report_iff(expected: Seq<Seq<char>>, files: Seq<(Seq<char>, Result<Seq<char>, Seq<char>>)>)
    ensures
        missing_report(expected, files) is Err <==> exists|i: int| 0 <= i < files.len() && file_fails((#[trigger] files[i]).1),
        missing_report(expected, files) == Ok::<Seq<char>, Seq<char>>(Seq::empty())
            <==> forall|i: int| 0 <= i < files.len() ==> file_complete(expected, (#[trigger] files[i]).1),
    decreases files.len(),
{
    reveal_strlit("Message IDs missing in ");
    if files.len() > 0 {
        let init = files.drop_last();
        let n = files.len() - 1;
        lemma_report_iff(expected, init);
        assert forall|i: int| 0 <= i < init.len() implies #[trigger] init[i] == files[i] by {}
        assert(files[n] == files.last());
        assert((forall|i: int| 0 <= i < files.len() ==> file_complete(expected, (#[trigger] files[i]).1))
            <==> (forall|i: int| 0 <= i < init.len() ==> file_complete(expected, (#[trigger] init[i]).1))
                && file_complete(expected, files[n].1)) by {
            if forall|i: int| 0 <= i < init.len() ==> file_complete(expected, (#[trigger] init[i]).1) {
                if file_complete(expected, files[n].1) {
                    assert forall|i: int| 0 <= i < files.len() implies file_complete(expected, (#[trigger] files[i]).1) by {
                        if i < n {
                            assert(files[i] == init[i]);
                        }
                    }
                }
            }
        }
        let (path, content) = files.last();
        match missing_report(expected, init) {
            Err(_) => {
                let i = choose|i: int| 0 <= i < init.len() && file_fails((#[trigger] init[i]).1);
                assert(file_fails(files[i].1));
                assert(!file_complete(expected, files[i].1));
            },
            Ok(before) => {
                assert(before.len() == 0 ==> before =~= Seq::<char>::empty());
                assert forall|i: int| 0 <= i < n implies !file_fails((#[trigger] files[i]).1) by {
                    assert(files[i] == init[i]);
                }
                match content {
                    Err(_) => {
                        assert(file_fails(files[n].1));
                    },
                    Ok(source) => match crate::resource::parsed_entries(source) {
                        Err(_) => {
                            assert(file_fails(files[n].1));
                        },
                        Ok(body) => {
                            lemma_nothing_missing_iff(expected, body);
                            let ids = missing_ids(expected, body);
                            assert(!file_fails(files[n].1));
                            if ids.len() > 0 {
                                assert(!file_complete(expected, files[n].1));
                                let r = before + missing_section(path, ids);
                                assert(r.len() > 0);
                                assert(r != Seq::<char>::empty());
                            } else {
                                assert(file_complete(expected, files[n].1));
                            }
                        },
                    },
                }
            },
        }
    }
}

/// Checking files against the file of reference fails exactly when the
/// file of reference or one of the files to check cannot be read or
/// parsed. Otherwise it finds nothing missing exactly when every file to
/// check has a message for each message id of the file of reference, and a
/// report is never empty.
pub proof fn lemma_missing_outcome(expected: Result<Seq<char>, Seq<char>>, files: Seq<(Seq<char>, Result<Seq<char>, Seq<char>>)>)
    ensures
        missing_outcome(expected, files) is Err
            <==> file_fails(expected) || exists|i: int| 0 <= i < files.len() && file_fails((#[trigger] files[i]).1),
        missing_outcome(expected, files) == Ok::<Option<Seq<char>>, Seq<char>>(None) <==> {
            &&& !file_fails(expected)
            &&& forall|i: int| 0 <= i < files.len()
                ==> has_messages_of(crate::resource::parsed_entries(expected->Ok_0)->Ok_0, (#[trigger] files[i]).1)
        },
        missing_outcome(expected, files) matches Ok(Some(report)) ==> report.len() > 0,
{
    if !file_fails(expected) {
        let eb = crate::resource::parsed_entries(expected->Ok_0)->Ok_0;
        let ex = crate::resource::distinct_message_ids(eb);
        crate::resource::lemma_distinct_message_ids(eb);
        lemma_report_iff(ex, files);
        assert forall|i: int| 0 <= i < files.len() implies (file_complete(ex, (#[trigger] files[i]).1) <==> has_messages_of(eb, files[i].1)) by {
            if files[i].1 is Ok && crate::resource::parsed_entries(files[i].1->Ok_0) is Ok {
                let body = crate::resource::parsed_entries(files[i].1->Ok_0)->Ok_0;
                if file_complete(ex, files[i].1) {
                    assert forall|x: Seq<char>| crate::resource::has_message_id(eb, x) implies #[trigger] crate::resource::has_message_id(body, x) by {
                        assert(ex.contains(x));
                    }
                }
            }
        }
        if let Ok(r) = missing_report(ex, files) {
            assert(r.len() == 0 ==> r =~= Seq::<char>::empty());
        }
    }
}

} // verus!
