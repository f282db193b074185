//! Laws that relate the operations of the store, stated over its model.

use vstd::prelude::*;

use crate::datamodel::{Archive, DbError, TagAddResult, TagQueryResult, Timestamp};
use crate::model::{
    lemma_attach_tag_extends, lemma_attach_tags_grows, lemma_attach_tags_step, linked_tags, max_rows,
    DbModel,
};

verus! {

/// Text `t` stands in `s` at exactly one position.
pub open spec fn holds_once(s: Seq<Seq<char>>, t: Seq<char>) -> bool {
    exists|i: int|
        0 <= i < s.len() && #[trigger] s[i] == t && forall|j: int|
            0 <= j < s.len() && #[trigger] s[j] == t ==> j == i
}

/// The store after inserting tag text `t` `n` times in a row.
pub open spec fn add_tag_times(m: DbModel, t: Seq<char>, n: nat) -> DbModel
    decreases n,
{
    if n == 0 {
        m
    } else {
        add_tag_times(m, t, (n - 1) as nat).add_tag(t).0
    }
}

/// The store after inserting each tag text of `ts` in order.
pub open spec fn add_tags(m: DbModel, ts: Seq<Seq<char>>) -> DbModel
    decreases ts.len(),
{
    if ts.len() == 0 {
        m
    } else {
        add_tags(m, ts.drop_last()).add_tag(ts.last()).0
    }
}

/// A tag that was just created is found under the identifier its creation
/// returned; a tag that existed is found too.
pub proof fn law_created_tag_is_found(m: DbModel, t: Seq<char>)
    requires
        m.wf(),
    ensures
        m.add_tag(t).1 matches Ok(TagAddResult::TagId(id)) ==> m.add_tag(t).0.find_tag(t)
            == TagQueryResult::TagId(id),
        m.add_tag(t).1 is Ok ==> m.add_tag(t).0.find_tag(t) is TagId,
{
    let (m1, r) = m.add_tag(t);
    if r matches Ok(TagAddResult::TagId(id)) {
        let n = m.tags.len();
        assert(m1.tags[n as int] == t);
        assert(m1.tags.contains(t));
        let k = m1.tags.index_of(t);
        if k < n {
            assert(m.tags[k] == t);
        }
    } else if r is Ok {
        assert(m1.tags.contains(t));
    }
}

/// Inserting a tag text once or any number of times leaves the same store:
/// every call after the first changes nothing and reports that the tag
/// exists, and the text is held exactly once.
pub proof fn law_add_tag_repeated(m: DbModel, t: Seq<char>, n: nat)
    requires
        m.wf(),
        n >= 1,
    ensures
        add_tag_times(m, t, n) == add_tag_times(m, t, 1),
        m.add_tag(t).1 is Ok ==> add_tag_times(m, t, n).add_tag(t).1 == Ok::<TagAddResult, DbError>(
            TagAddResult::TagAlreadyExists,
        ),
        m.add_tag(t).1 is Ok ==> holds_once(add_tag_times(m, t, n).tags, t),
    decreases n,
{
    let m1 = m.add_tag(t).0;
    assert(add_tag_times(m, t, 1) == m1) by {
        assert(add_tag_times(m, t, 0) == m);
    }
    if n > 1 {
        law_add_tag_repeated(m, t, (n - 1) as nat);
    }
    if m.add_tag(t).1 is Ok {
        let i = if m.tags.contains(t) {
            m.tags.index_of(t)
        } else {
            m.tags.len() as int
        };
        assert(m1.tags[i] == t);
        assert forall|j: int| 0 <= j < m1.tags.len() && #[trigger] m1.tags[j] == t implies j == i by {
            if j < m.tags.len() && i < m.tags.len() {
                assert(m.tags[j] == m.tags[i]);
            } else if j < m.tags.len() {
                assert(m.tags[j] == t);
            }
        }
        assert(m1.tags.contains(t));
    }
}

/// Tags come out in the order they were created: inserting fresh, distinct
/// texts appends exactly them, in order.
pub proof fn law_tags_keep_creation_order(m: DbModel, ts: Seq<Seq<char>>)
    requires
        ts.no_duplicates(),
        forall|i: int| 0 <= i < ts.len() ==> #[trigger] ts[i].len() > 0,
        forall|i: int| 0 <= i < ts.len() ==> !m.tags.contains(#[trigger] ts[i]),
        m.tags.len() + ts.len() <= max_rows(),
    ensures
        add_tags(m, ts).tags == m.tags + ts,
    decreases ts.len(),
{
    if ts.len() > 0 {
        let prev = ts.drop_last();
        let t = ts.last();
        assert forall|i: int| 0 <= i < prev.len() ==> !m.tags.contains(#[trigger] prev[i]) by {
            if 0 <= i < prev.len() {
                assert(prev[i] == ts[i]);
            }
        }
        law_tags_keep_creation_order(m, prev);
        let before = add_tags(m, prev);
        assert(!before.tags.contains(t)) by {
            if before.tags.contains(t) {
                let k = before.tags.index_of(t);
                if k < m.tags.len() {
                    assert(m.tags[k] == t);
                    assert(!m.tags.contains(ts[ts.len() - 1]));
                } else {
                    assert(prev[k - m.tags.len()] == ts[k - m.tags.len()]);
                    assert(ts[k - m.tags.len()] == ts[ts.len() - 1]);
                }
            }
        }
        assert(t.len() > 0) by {
            assert(ts[ts.len() - 1].len() > 0);
        }
        assert(add_tags(m, ts).tags =~= m.tags + ts);
    }
}

/// Marking an unknown link read fails with `NotFound` and changes nothing; a
/// known link ends up archived, and marking it again succeeds and changes
/// nothing.
pub proof fn law_mark_read(m: DbModel, link_id: i64)
    requires
        m.wf(),
    ensures
        !m.has_link(link_id) ==> m.mark_read(link_id) == (m, Err::<(), DbError>(DbError::NotFound)),
        m.has_link(link_id) ==> m.mark_read(link_id).1 is Ok && m.mark_read(link_id).0.links[link_id
            - 1].archive == Archive::Archived,
        m.has_link(link_id) ==> m.mark_read(link_id).0.mark_read(link_id) == (
            m.mark_read(link_id).0,
            Ok::<(), DbError>(()),
        ),
{
    if m.has_link(link_id) {
        let m1 = m.mark_read(link_id).0;
        let m2 = m1.mark_read(link_id).0;
        assert(m2.links =~= m1.links);
    }
}

/// Adding an entry is all or nothing: when it fails, no link, tag or
/// association of it remains.
pub proof fn law_add_entry_all_or_nothing(
    m: DbModel,
    link: Seq<char>,
    comment: Seq<char>,
    ts: Seq<Seq<char>>,
    timestamp: Timestamp,
)
    ensures
        m.add_entry(link, comment, ts, timestamp).1 is Err ==> m.add_entry(
            link,
            comment,
            ts,
            timestamp,
        ).0 == m,
{
}

/// An entry's tags come back for its link in the order they were given, and
/// each of them is held once in the tag table, whether or not it existed
/// before.
pub proof fn law_entry_tags_in_order(
    m: DbModel,
    link: Seq<char>,
    comment: Seq<char>,
    ts: Seq<Seq<char>>,
    timestamp: Timestamp,
)
    requires
        m.wf(),
        ts.no_duplicates(),
    ensures
        m.add_entry(link, comment, ts, timestamp) matches (m1, Ok(link_id)) ==> m1.tags_for_link(
            link_id,
        ) == Ok::<Seq<Seq<char>>, DbError>(ts) && forall|i: int|
            0 <= i < ts.len() ==> holds_once(m1.tags, #[trigger] ts[i]),
{
    let (m1, r) = m.add_entry(link, comment, ts, timestamp);
    if r is Ok {
        let (mid, l) = m.create_link(link, comment, timestamp);
        let l = l->Ok_0;
        assert forall|q: int| 0 <= q < mid.link_tags.len() implies #[trigger] mid.link_tags[q].0
            != l by {
            assert(m.refers(m.link_tags[q]));
        }
        lemma_attach_distinct(mid, l, ts, ts.len() as int);
        assert(ts.take(ts.len() as int) =~= ts);
        assert forall|i: int| 0 <= i < ts.len() implies holds_once(m1.tags, #[trigger] ts[i]) by {
            let k = m1.tags.index_of(ts[i]);
            assert(m1.tags[k] == ts[i]);
            assert forall|j: int| 0 <= j < m1.tags.len() && #[trigger] m1.tags[j] == ts[i] implies j
                == k by {
                assert(m1.tags[j] == m1.tags[k]);
            }
        }
    }
}

/// The texts of a link's associations do not change when the tag table
/// grows, as long as those associations name tags already in it.
proof fn lemma_linked_tags_extend(
    pairs: Seq<(i64, i64)>,
    tags: Seq<Seq<char>>,
    tags2: Seq<Seq<char>>,
    l: i64,
)
    requires
        tags.len() <= tags2.len(),
        tags2.subrange(0, tags.len() as int) == tags,
        forall|q: int|
            0 <= q < pairs.len() && (#[trigger] pairs[q]).0 == l ==> 1 <= pairs[q].1 <= tags.len(),
    ensures
        linked_tags(pairs, tags2, l) == linked_tags(pairs, tags, l),
    decreases pairs.len(),
{
    if pairs.len() > 0 {
        let prev = pairs.drop_last();
        assert forall|q: int| 0 <= q < prev.len() && (#[trigger] prev[q]).0 == l implies 1
            <= prev[q].1 <= tags.len() by {
            assert(prev[q] == pairs[q]);
        }
        lemma_linked_tags_extend(prev, tags, tags2, l);
        let p = pairs.last();
        if p.0 == l {
            assert(pairs[pairs.len() - 1] == p);
            assert(tags2[p.1 - 1] == tags2.subrange(0, tags.len() as int)[p.1 - 1]);
        }
    }
}

/// A link with no associations has no tags.
proof fn lemma_linked_tags_none(pairs: Seq<(i64, i64)>, tags: Seq<Seq<char>>, l: i64)
    requires
        forall|q: int| 0 <= q < pairs.len() ==> (#[trigger] pairs[q]).0 != l,
    ensures
        linked_tags(pairs, tags, l) == Seq::<Seq<char>>::empty(),
    decreases pairs.len(),
{
    if pairs.len() > 0 {
        let prev = pairs.drop_last();
        assert forall|q: int| 0 <= q < prev.len() implies (#[trigger] prev[q]).0 != l by {
            assert(prev[q] == pairs[q]);
        }
        lemma_linked_tags_none(prev, tags, l);
        assert(pairs[pairs.len() - 1] == pairs.last());
    }
}

/// Attaching the first `k` of distinct texts to a link that had no tags.
proof fn lemma_attach_distinct(mid: DbModel, l: i64, ts: Seq<Seq<char>>, k: int)
    requires
        0 <= k <= ts.len(),
        ts.no_duplicates(),
        mid.tags.no_duplicates(),
        mid.attach_tags(l, ts).tags.len() <= max_rows(),
        forall|q: int| 0 <= q < mid.link_tags.len() ==> (#[trigger] mid.link_tags[q]).0 != l,
    ensures
        ({
            let a = mid.attach_tags(l, ts.take(k));
            &&& a.links == mid.links
            &&& a.tags.no_duplicates()
            &&& forall|j: int| 0 <= j < k ==> a.tags.contains(#[trigger] ts[j])
            &&& forall|q: int|
                0 <= q < a.link_tags.len() && (#[trigger] a.link_tags[q]).0 == l ==> 1
                    <= a.link_tags[q].1 <= a.tags.len() && ts.take(k).contains(
                    a.tags[a.link_tags[q].1 - 1],
                )
            &&& linked_tags(a.link_tags, a.tags, l) == ts.take(k)
        }),
    decreases k,
{
    if k == 0 {
        assert(ts.take(0) =~= Seq::<Seq<char>>::empty());
        lemma_linked_tags_none(mid.link_tags, mid.tags, l);
    } else {
        lemma_attach_distinct(mid, l, ts, k - 1);
        lemma_attach_tags_step(mid, l, ts, k - 1);
        let a = mid.attach_tags(l, ts.take(k - 1));
        let t = ts[k - 1];
        let b = a.attach_tag(l, t);
        let tid = a.tag_id_for(t);
        let pre = ts.take(k - 1);
        assert(ts.take(k) =~= pre.push(t));
        lemma_attach_tags_grows(mid, l, ts, k);
        lemma_attach_tag_extends(a, l, t);
        assert(a.tags.contains(t) ==> 0 <= a.tags.index_of(t) < a.tags.len()) by {
            if a.tags.contains(t) {
                let i = a.tags.index_of(t);
                assert(a.tags[i] == t);
            }
        }
        // The new text stands at `tid` and nowhere else.
        assert(b.tags[tid - 1] == t) by {
            if a.tags.contains(t) {
                let i = a.tags.index_of(t);
                assert(a.tags[i] == t);
            }
        }
        assert(b.tags.no_duplicates()) by {
            if !a.tags.contains(t) {
                assert forall|i: int, j: int|
                    0 <= i < b.tags.len() && 0 <= j < b.tags.len() && i != j implies b.tags[i]
                    != b.tags[j] by {
                    if i < a.tags.len() && j < a.tags.len() {
                        assert(a.tags[i] != a.tags[j]);
                    } else if i < a.tags.len() {
                        assert(a.tags[i] != t);
                    } else if j < a.tags.len() {
                        assert(a.tags[j] != t);
                    }
                }
            }
        }
        // The link had no association with `tid` yet.
        assert(!a.link_tags.contains((l, tid))) by {
            if a.link_tags.contains((l, tid)) {
                let q = a.link_tags.index_of((l, tid));
                assert(a.link_tags[q] == (l, tid));
                assert(pre.contains(a.tags[tid - 1]));
                let j = pre.index_of(a.tags[tid - 1]);
                assert(pre[j] == ts[j]);
                if a.tags.contains(t) {
                    let i = a.tags.index_of(t);
                    assert(a.tags[i] == t);
                }
                assert(ts[j] == ts[k - 1]);
            }
        }
        assert(b.link_tags == a.link_tags.push((l, tid)));
        assert(b.tags.subrange(0, a.tags.len() as int) =~= a.tags);
        lemma_linked_tags_extend(a.link_tags, a.tags, b.tags, l);
        assert(b.link_tags.drop_last() =~= a.link_tags);
        assert(linked_tags(b.link_tags, b.tags, l) == linked_tags(a.link_tags, b.tags, l).push(t));
        assert forall|j: int| 0 <= j < k implies b.tags.contains(#[trigger] ts[j]) by {
            if j < k - 1 {
                assert(a.tags.contains(ts[j]));
                let i = a.tags.index_of(ts[j]);
                assert(b.tags[i] == ts[j]);
            } else {
                assert(b.tags[tid - 1] == ts[j]);
            }
        }
        assert forall|q: int|
            0 <= q < b.link_tags.len() && (#[trigger] b.link_tags[q]).0 == l implies 1
                <= b.link_tags[q].1 <= b.tags.len() && ts.take(k).contains(
                b.tags[b.link_tags[q].1 - 1],
            ) by {
            if q < a.link_tags.len() {
                assert(b.link_tags[q] == a.link_tags[q]);
                let x = a.tags[a.link_tags[q].1 - 1];
                assert(pre.contains(x));
                let j = pre.index_of(x);
                assert(ts.take(k)[j] == x);
            } else {
                assert(ts.take(k)[k - 1] == t);
            }
        }
    }
}

} // verus!
