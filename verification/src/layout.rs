//! What the canonical layout promises: ids are ordered by a strict total
//! order, ordering by id gives a sorted arrangement of the same entries,
//! and laying out a resource keeps its entries, puts them in the promised
//! order, and changes nothing when done twice.
use vstd::prelude::*;
use crate::ftl::FtlEntry;
use crate::resource::{first_misplaced, format_body, insert_position, message_entries, resource_comments, sorted_by_id, term_entries, text_lt};

verus! {

/// The order of ids is a strict total order: no id comes before itself,
/// two ids never come each before the other, it is transitive, and of two
/// different ids one comes before the other.
pub proof fn lemma_text_order(a: Seq<char>, b: Seq<char>, c: Seq<char>)
    ensures
        !text_lt(a, a),
        text_lt(a, b) ==> !text_lt(b, a),
        text_lt(a, b) && text_lt(b, c) ==> text_lt(a, c),
        a == b || text_lt(a, b) || text_lt(b, a),
    decreases a.len(),
{
    if a.len() > 0 {
        lemma_text_order(a.drop_first(), b.drop_first(), c.drop_first());
        if b.len() > 0 && a[0] == b[0] && a.drop_first() == b.drop_first() {
            assert(a =~= b) by {
                assert forall|i: int| 0 <= i < a.len() implies a[i] == b[i] by {
                    if i > 0 {
                        assert(a[i] == a.drop_first()[i - 1]);
                        assert(b[i] == b.drop_first()[i - 1]);
                    }
                }
            }
        }
        if b.len() > 0 && c.len() > 0 && a[0] == b[0] && b[0] == c[0] {
            lemma_text_order(a.drop_first(), b.drop_first(), c.drop_first());
        }
        if b.len() > 0 && a[0] != b[0] {
            assert((a[0] as int) != (b[0] as int));
        }
    } else {
        if b.len() == 0 {
            assert(a =~= b);
        }
    }
}

/// "Not after": `a` does not come after `b`.
pub open spec fn text_le(a: Seq<char>, b: Seq<char>) -> bool {
    !text_lt(b, a)
}

proof fn lemma_text_le_transitive(a: Seq<char>, b: Seq<char>, c: Seq<char>)
    requires
        text_le(a, b),
        text_le(b, c),
    ensures
        text_le(a, c),
{
    lemma_text_order(c, b, a);
    lemma_text_order(b, c, a);
    lemma_text_order(c, a, b);
    lemma_text_order(a, b, c);
}

/// Whether no entry comes after a later one by id.
pub open spec fn ids_sorted(s: Seq<FtlEntry>) -> bool {
    forall|i: int, j: int| 0 <= i < j < s.len() ==> text_le(#[trigger] s[i].id_view(), #[trigger] s[j].id_view())
}

proof fn lemma_insert_position(s: Seq<FtlEntry>, x: FtlEntry)
    ensures
        0 <= insert_position(s, x) <= s.len(),
        forall|k: int| insert_position(s, x) <= k < s.len() ==> text_lt(x.id_view(), #[trigger] s[k].id_view()),
        insert_position(s, x) > 0 ==> text_le(s[insert_position(s, x) - 1].id_view(), x.id_view()),
    decreases s.len(),
{
    if s.len() > 0 && text_lt(x.id_view(), s.last().id_view()) {
        lemma_insert_position(s.drop_last(), x);
        let p = insert_position(s, x);
        assert forall|k: int| p <= k < s.len() implies text_lt(x.id_view(), #[trigger] s[k].id_view()) by {
            if k < s.len() - 1 {
                assert(s[k] == s.drop_last()[k]);
            }
        }
        if p > 0 {
            assert(s[p - 1] == s.drop_last()[p - 1]);
        }
    }
}

/// Ordering by id gives the same entries, each as often, in an order where
/// no entry comes after a later one.
pub proof fn lemma_sorted_by_id(s: Seq<FtlEntry>)
    ensures
        ids_sorted(sorted_by_id(s)),
        sorted_by_id(s).to_multiset() == s.to_multiset(),
        sorted_by_id(s).len() == s.len(),
    decreases s.len(),
{
    broadcast use vstd::seq_lib::group_to_multiset_ensures;
    if s.len() > 0 {
        let rest = sorted_by_id(s.drop_last());
        let x = s.last();
        lemma_sorted_by_id(s.drop_last());
        lemma_insert_position(rest, x);
        let p = insert_position(rest, x);
        let r = rest.insert(p, x);
        assert(r == sorted_by_id(s));
        assert forall|i: int, j: int| 0 <= i < j < r.len() implies text_le(#[trigger] r[i].id_view(), #[trigger] r[j].id_view()) by {
            if j < p {
                assert(r[i] == rest[i] && r[j] == rest[j]);
            } else if j == p {
                assert(r[j] == x);
                assert(r[i] == rest[i]);
                if i < p - 1 {
                    lemma_text_le_transitive(rest[i].id_view(), rest[p - 1].id_view(), x.id_view());
                }
            } else if i == p {
                assert(r[i] == x);
                assert(r[j] == rest[j - 1]);
                lemma_text_order(x.id_view(), rest[j - 1].id_view(), x.id_view());
            } else if i < p {
                assert(r[i] == rest[i] && r[j] == rest[j - 1]);
            } else {
                assert(r[i] == rest[i - 1] && r[j] == rest[j - 1]);
            }
        }
        assert(s.drop_last().push(x) =~= s);
    }
}

/// Ordering by id changes nothing in entries already ordered.
pub proof fn lemma_sorted_by_id_keeps_sorted(s: Seq<FtlEntry>)
    requires
        ids_sorted(s),
    ensures
        sorted_by_id(s) == s,
    decreases s.len(),
{
    if s.len() > 0 {
        let init = s.drop_last();
        assert(ids_sorted(init)) by {
            assert forall|i: int, j: int| 0 <= i < j < init.len() implies text_le(#[trigger] init[i].id_view(), #[trigger] init[j].id_view()) by {
                assert(init[i] == s[i] && init[j] == s[j]);
            }
        }
        lemma_sorted_by_id_keeps_sorted(init);
        if init.len() > 0 {
            assert(init.last() == s[s.len() - 2]);
            assert(text_le(s[s.len() - 2].id_view(), s[s.len() - 1].id_view()));
        }
        assert(insert_position(init, s.last()) == init.len());
        assert(init.insert(init.len() as int, s.last()) =~= s);
    }
}

/// Whether an entry is of a kind the layout keeps: a resource comment, a
/// term or a message.
pub open spec fn kept_kind(e: FtlEntry) -> bool {
    e is ResourceComment || e is Term || e is Message
}

proof fn lemma_nothing_misplaced(body: Seq<FtlEntry>, i: int, past_header: bool)
    requires
        0 <= i <= body.len(),
        first_misplaced(body, i, past_header) >= body.len(),
    ensures
        forall|k: int| i <= k < body.len() ==> kept_kind(#[trigger] body[k]),
    decreases body.len() - i,
{
    if i < body.len() {
        match body[i] {
            FtlEntry::Message(_) => lemma_nothing_misplaced(body, i + 1, true),
            FtlEntry::Term(_) => lemma_nothing_misplaced(body, i + 1, true),
            FtlEntry::ResourceComment(_) => lemma_nothing_misplaced(body, i + 1, false),
            _ => {},
        }
    }
}

proof fn lemma_filter_all(s: Seq<FtlEntry>, p: spec_fn(FtlEntry) -> bool)
    requires
        forall|k: int| 0 <= k < s.len() ==> p(#[trigger] s[k]),
    ensures
        s.filter(p) == s,
    decreases s.len(),
{
    if s.len() > 0 {
        lemma_filter_all(s.drop_last(), p);
        assert(s.drop_last().push(s.last()) =~= s);
        s.drop_last().lemma_filter_push(s.last(), p);
    } else {
        assert(s.filter(p) =~= s);
    }
}

proof fn lemma_filter_none(s: Seq<FtlEntry>, p: spec_fn(FtlEntry) -> bool)
    requires
        forall|k: int| 0 <= k < s.len() ==> !p(#[trigger] s[k]),
    ensures
        s.filter(p) == Seq::<FtlEntry>::empty(),
    decreases s.len(),
{
    if s.len() > 0 {
        lemma_filter_none(s.drop_last(), p);
        assert(s.drop_last().push(s.last()) =~= s);
        s.drop_last().lemma_filter_push(s.last(), p);
    } else {
        assert(s.filter(p) =~= Seq::<FtlEntry>::empty());
    }
}

proof fn lemma_three_filters(s: Seq<FtlEntry>)
    requires
        forall|k: int| 0 <= k < s.len() ==> kept_kind(#[trigger] s[k]),
    ensures
        s.filter(resource_comments()).to_multiset().add(s.filter(term_entries()).to_multiset()).add(
            s.filter(message_entries()).to_multiset(),
        ) == s.to_multiset(),
    decreases s.len(),
{
    broadcast use vstd::multiset::group_multiset_axioms;
    broadcast use vstd::seq_lib::group_to_multiset_ensures;
    if s.len() == 0 {
        assert(s.filter(resource_comments()) =~= Seq::<FtlEntry>::empty());
        assert(s.filter(term_entries()) =~= Seq::<FtlEntry>::empty());
        assert(s.filter(message_entries()) =~= Seq::<FtlEntry>::empty());
        assert(s.to_multiset() =~= vstd::multiset::Multiset::<FtlEntry>::empty());
        assert(Seq::<FtlEntry>::empty().to_multiset() =~= vstd::multiset::Multiset::<FtlEntry>::empty());
        assert(vstd::multiset::Multiset::<FtlEntry>::empty().add(vstd::multiset::Multiset::<FtlEntry>::empty()).add(vstd::multiset::Multiset::<FtlEntry>::empty()) =~= vstd::multiset::Multiset::<FtlEntry>::empty());
    } else {
        let init = s.drop_last();
        let x = s.last();
        assert forall|k: int| 0 <= k < init.len() implies kept_kind(#[trigger] init[k]) by {
            assert(init[k] == s[k]);
        }
        lemma_three_filters(init);
        assert(init.push(x) =~= s);
        init.lemma_filter_push(x, resource_comments());
        init.lemma_filter_push(x, term_entries());
        init.lemma_filter_push(x, message_entries());
        assert(kept_kind(s[s.len() - 1]));
        let a = init.filter(resource_comments()).to_multiset();
        let b = init.filter(term_entries()).to_multiset();
        let c = init.filter(message_entries()).to_multiset();
        if x is ResourceComment {
            assert(a.insert(x).add(b).add(c) =~= a.add(b).add(c).insert(x));
        } else if x is Term {
            assert(a.add(b.insert(x)).add(c) =~= a.add(b).add(c).insert(x));
        } else {
            assert(a.add(b).add(c.insert(x)) =~= a.add(b).add(c).insert(x));
        }
    }
}

proof fn lemma_sorted_keeps_kind(s: Seq<FtlEntry>, p: spec_fn(FtlEntry) -> bool)
    requires
        forall|k: int| 0 <= k < s.len() ==> p(#[trigger] s[k]),
    ensures
        forall|k: int| 0 <= k < sorted_by_id(s).len() ==> p(#[trigger] sorted_by_id(s)[k]),
{
    broadcast use vstd::seq_lib::group_to_multiset_ensures;
    lemma_sorted_by_id(s);
    let r = sorted_by_id(s);
    assert forall|k: int| 0 <= k < r.len() implies p(#[trigger] r[k]) by {
        let e = r[k];
        assert(r.contains(e));
        assert(r.to_multiset().count(e) > 0);
        assert(s.to_multiset().count(e) > 0);
        assert(s.contains(e));
        let j = choose|j: int| 0 <= j < s.len() && s[j] == e;
        assert(p(s[j]));
    }
}

/// Whether `f` is in the canonical layout with its terms starting at `a`
/// and its messages at `b`.
pub open spec fn layout_at(f: Seq<FtlEntry>, a: int, b: int) -> bool {
    &&& 0 <= a <= b <= f.len()
    &&& forall|k: int| 0 <= k < a ==> (#[trigger] f[k]) is ResourceComment
    &&& forall|k: int| a <= k < b ==> (#[trigger] f[k]) is Term
    &&& forall|k: int| b <= k < f.len() ==> (#[trigger] f[k]) is Message
    &&& ids_sorted(f.subrange(a, b))
    &&& ids_sorted(f.subrange(b, f.len() as int))
}

/// Whether entries are in the canonical layout: resource comments, then
/// terms ordered by id, then messages ordered by id.
pub open spec fn canonical_layout(f: Seq<FtlEntry>) -> bool {
    exists|a: int, b: int| #[trigger] layout_at(f, a, b)
}

proof fn lemma_layout_accepted(f: Seq<FtlEntry>, a: int, b: int, i: int, past_header: bool)
    requires
        layout_at(f, a, b),
        0 <= i <= f.len(),
        i < a ==> !past_header,
    ensures
        first_misplaced(f, i, past_header) == f.len(),
    decreases f.len() - i,
{
    if i < f.len() {
        if i < a {
            lemma_layout_accepted(f, a, b, i + 1, false);
        } else {
            lemma_layout_accepted(f, a, b, i + 1, true);
        }
    }
}

/// The parts of the canonical layout of a body: its resource comments, and
/// its terms and its messages ordered by id.
spec fn layout_parts(body: Seq<FtlEntry>) -> (Seq<FtlEntry>, Seq<FtlEntry>, Seq<FtlEntry>) {
    (
        body.filter(resource_comments()),
        sorted_by_id(body.filter(term_entries())),
        sorted_by_id(body.filter(message_entries())),
    )
}

proof fn lemma_parts_kinds(body: Seq<FtlEntry>)
    ensures
        forall|k: int| 0 <= k < layout_parts(body).0.len() ==> (#[trigger] layout_parts(body).0[k]) is ResourceComment,
        forall|k: int| 0 <= k < layout_parts(body).1.len() ==> (#[trigger] layout_parts(body).1[k]) is Term,
        forall|k: int| 0 <= k < layout_parts(body).2.len() ==> (#[trigger] layout_parts(body).2[k]) is Message,
        ids_sorted(layout_parts(body).1),
        ids_sorted(layout_parts(body).2),
{
    let h = body.filter(resource_comments());
    let terms = body.filter(term_entries());
    let messages = body.filter(message_entries());
    assert forall|k: int| 0 <= k < h.len() implies (#[trigger] h[k]) is ResourceComment by {
        body.lemma_filter_pred(resource_comments(), k);
    }
    assert forall|k: int| 0 <= k < terms.len() implies term_entries()(#[trigger] terms[k]) by {
        body.lemma_filter_pred(term_entries(), k);
    }
    assert forall|k: int| 0 <= k < messages.len() implies message_entries()(#[trigger] messages[k]) by {
        body.lemma_filter_pred(message_entries(), k);
    }
    lemma_sorted_keeps_kind(terms, term_entries());
    lemma_sorted_keeps_kind(messages, message_entries());
    lemma_sorted_by_id(terms);
    lemma_sorted_by_id(messages);
}

proof fn lemma_parts_multiset(body: Seq<FtlEntry>)
    requires
        forall|k: int| 0 <= k < body.len() ==> kept_kind(#[trigger] body[k]),
    ensures
        (layout_parts(body).0 + layout_parts(body).1 + layout_parts(body).2).to_multiset() == body.to_multiset(),
{
    let (h, t, m) = layout_parts(body);
    lemma_sorted_by_id(body.filter(term_entries()));
    lemma_sorted_by_id(body.filter(message_entries()));
    lemma_three_filters(body);
    vstd::seq_lib::lemma_multiset_commutative(h + t, m);
    vstd::seq_lib::lemma_multiset_commutative(h, t);
}

proof fn lemma_parts_layout(body: Seq<FtlEntry>)
    ensures
        layout_at(
            layout_parts(body).0 + layout_parts(body).1 + layout_parts(body).2,
            layout_parts(body).0.len() as int,
            (layout_parts(body).0.len() + layout_parts(body).1.len()) as int,
        ),
{
    let (h, t, m) = layout_parts(body);
    lemma_parts_kinds(body);
    let f = h + t + m;
    let a = h.len() as int;
    let b = (h.len() + t.len()) as int;
    assert(f.subrange(a, b) =~= t);
    assert(f.subrange(b, f.len() as int) =~= m);
    assert forall|k: int| 0 <= k < a implies (#[trigger] f[k]) is ResourceComment by {
        assert(f[k] == h[k]);
    }
    assert forall|k: int| a <= k < b implies (#[trigger] f[k]) is Term by {
        assert(f[k] == t[k - a]);
    }
    assert forall|k: int| b <= k < f.len() implies (#[trigger] f[k]) is Message by {
        assert(f[k] == m[k - b]);
    }
}

proof fn lemma_filter_parts(h: Seq<FtlEntry>, t: Seq<FtlEntry>, m: Seq<FtlEntry>, p: spec_fn(FtlEntry) -> bool)
    ensures
        (h + t + m).filter(p) == h.filter(p) + t.filter(p) + m.filter(p),
{
    Seq::filter_distributes_over_add(h + t, m, p);
    Seq::filter_distributes_over_add(h, t, p);
}

proof fn lemma_parts_idempotent(body: Seq<FtlEntry>)
    ensures
        layout_parts(layout_parts(body).0 + layout_parts(body).1 + layout_parts(body).2) == layout_parts(body),
{
    let (h, t, m) = layout_parts(body);
    lemma_parts_kinds(body);
    lemma_filter_parts(h, t, m, resource_comments());
    lemma_filter_parts(h, t, m, term_entries());
    lemma_filter_parts(h, t, m, message_entries());
    lemma_filter_all(h, resource_comments());
    lemma_filter_none(t, resource_comments());
    lemma_filter_none(m, resource_comments());
    lemma_filter_none(h, term_entries());
    lemma_filter_all(t, term_entries());
    lemma_filter_none(m, term_entries());
    lemma_filter_none(h, message_entries());
    lemma_filter_none(t, message_entries());
    lemma_filter_all(m, message_entries());
    let f = h + t + m;
    assert(f.filter(resource_comments()) =~= h);
    assert(f.filter(term_entries()) =~= t);
    assert(f.filter(message_entries()) =~= m);
    lemma_sorted_by_id_keeps_sorted(t);
    lemma_sorted_by_id_keeps_sorted(m);
}

/// Laying out entries that the layout accepts keeps every entry, each as
/// often; gives the canonical layout (resource comments first, then the
/// terms and then the messages, each group ordered by id); and laying the
/// result out again changes nothing.
pub proof fn lemma_format_body(body: Seq<FtlEntry>)
    requires
        format_body(body) is Ok,
    ensures
        format_body(body)->Ok_0.to_multiset() == body.to_multiset(),
        canonical_layout(format_body(body)->Ok_0),
        format_body(format_body(body)->Ok_0) == format_body(body),
{
    lemma_nothing_misplaced(body, 0, false);
    let (h, t, m) = layout_parts(body);
    let f = h + t + m;
    assert(format_body(body) == Ok::<Seq<FtlEntry>, Seq<char>>(f));
    lemma_parts_multiset(body);
    lemma_parts_layout(body);
    let a = h.len() as int;
    let b = (h.len() + t.len()) as int;
    assert(layout_at(f, a, b));
    lemma_layout_accepted(f, a, b, 0, false);
    lemma_parts_idempotent(body);
}

} // verus!
