//! The mathematical model of the link store: three tables as sequences.
//!
//! A link's identifier is its position in `links` plus one, and likewise for
//! a tag in `tags`: rows are only ever appended, so identifiers are assigned
//! in increasing order and never reused.

use vstd::prelude::*;

use crate::datamodel::{Archive, DbError, TagAddResult, TagQueryResult, Timestamp};

verus! {

/// The largest number of rows a table can hold: identifiers are positive `i64`s.
pub open spec fn max_rows() -> int {
    i64::MAX as int
}

/// One row of the link table.
pub ghost struct LinkModel {
    pub link: Seq<char>,
    pub comment: Seq<char>,
    pub archive: Archive,
    pub timestamp: Timestamp,
}

/// The whole store: links, tag texts, and (link id, tag id) associations.
pub ghost struct DbModel {
    pub links: Seq<LinkModel>,
    pub tags: Seq<Seq<char>>,
    pub link_tags: Seq<(i64, i64)>,
}

impl DbModel {
    /// The store that holds nothing.
    pub open spec fn empty() -> DbModel {
        DbModel { links: Seq::empty(), tags: Seq::empty(), link_tags: Seq::empty() }
    }

    pub open spec fn has_link(self, link_id: i64) -> bool {
        1 <= link_id <= self.links.len()
    }

    pub open spec fn has_tag_id(self, tag_id: i64) -> bool {
        1 <= tag_id <= self.tags.len()
    }

    /// An association that names an existing link and an existing tag.
    pub open spec fn refers(self, p: (i64, i64)) -> bool {
        self.has_link(p.0) && self.has_tag_id(p.1)
    }

    /// Every row the store can reach: ids fit, texts are non-empty, tag texts
    /// are unique, associations refer to existing rows and are not repeated.
    pub open spec fn wf(self) -> bool {
        &&& self.links.len() <= max_rows()
        &&& self.tags.len() <= max_rows()
        &&& forall|i: int| 0 <= i < self.links.len() ==> #[trigger] self.links[i].link.len() > 0
        &&& forall|i: int| 0 <= i < self.tags.len() ==> #[trigger] self.tags[i].len() > 0
        &&& self.tags.no_duplicates()
        &&& forall|k: int|
            0 <= k < self.link_tags.len() ==> #[trigger] self.refers(self.link_tags[k])
        &&& self.link_tags.no_duplicates()
    }

    /// The identifier of the tag with text `t`, if there is one.
    pub open spec fn find_tag(self, t: Seq<char>) -> TagQueryResult {
        if self.tags.contains(t) {
            TagQueryResult::TagId((self.tags.index_of(t) + 1) as i64)
        } else {
            TagQueryResult::TagNotFound
        }
    }

    /// Inserting a tag when its text is absent; an existing text is left alone.
    pub open spec fn add_tag(self, t: Seq<char>) -> (DbModel, Result<TagAddResult, DbError>) {
        if t.len() == 0 {
            (self, Err(DbError::EmptyText))
        } else if self.tags.contains(t) {
            (self, Ok(TagAddResult::TagAlreadyExists))
        } else if self.tags.len() >= max_rows() {
            (self, Err(DbError::StorageFault))
        } else {
            (
                DbModel { tags: self.tags.push(t), ..self },
                Ok(TagAddResult::TagId((self.tags.len() + 1) as i64)),
            )
        }
    }

    /// Appending a link in the queue.
    pub open spec fn create_link(self, link: Seq<char>, comment: Seq<char>, timestamp: Timestamp) -> (
        DbModel,
        Result<i64, DbError>,
    ) {
        if link.len() == 0 {
            (self, Err(DbError::EmptyText))
        } else if self.links.len() >= max_rows() {
            (self, Err(DbError::StorageFault))
        } else {
            let row = LinkModel { link, comment, archive: Archive::Queue, timestamp };
            (
                DbModel { links: self.links.push(row), ..self },
                Ok((self.links.len() + 1) as i64),
            )
        }
    }

    /// Moving a link to the archive; a link already there stays there.
    pub open spec fn mark_read(self, link_id: i64) -> (DbModel, Result<(), DbError>) {
        if self.has_link(link_id) {
            let row = self.links[link_id - 1];
            let read = LinkModel { archive: Archive::Archived, ..row };
            (DbModel { links: self.links.update(link_id - 1, read), ..self }, Ok(()))
        } else {
            (self, Err(DbError::NotFound))
        }
    }

    /// Associating a tag with a link; an association is recorded once.
    pub open spec fn link_tag(self, link_id: i64, tag_id: i64) -> (DbModel, Result<(), DbError>) {
        if !self.has_link(link_id) || !self.has_tag_id(tag_id) {
            (self, Err(DbError::ReferentialError))
        } else if self.link_tags.contains((link_id, tag_id)) {
            (self, Ok(()))
        } else {
            (DbModel { link_tags: self.link_tags.push((link_id, tag_id)), ..self }, Ok(()))
        }
    }

    /// The tags of a link, in the order they were attached to it.
    pub open spec fn tags_for_link(self, link_id: i64) -> Result<Seq<Seq<char>>, DbError> {
        if self.has_link(link_id) {
            Ok(linked_tags(self.link_tags, self.tags, link_id))
        } else {
            Err(DbError::NotFound)
        }
    }

    /// The identifier that tag text `t` has once it is in the store: its
    /// present one, or the next one.
    pub open spec fn tag_id_for(self, t: Seq<char>) -> i64 {
        if self.tags.contains(t) {
            (self.tags.index_of(t) + 1) as i64
        } else {
            (self.tags.len() + 1) as i64
        }
    }

    /// Attaching tag text `t` to link `link_id`, creating the tag if absent.
    /// The table's bound is not consulted here.
    pub open spec fn attach_tag(self, link_id: i64, t: Seq<char>) -> DbModel {
        let tag_id = self.tag_id_for(t);
        let tags = if self.tags.contains(t) {
            self.tags
        } else {
            self.tags.push(t)
        };
        let pairs = if self.link_tags.contains((link_id, tag_id)) {
            self.link_tags
        } else {
            self.link_tags.push((link_id, tag_id))
        };
        DbModel { tags, link_tags: pairs, ..self }
    }

    /// Attaching each of `ts` in order.
    pub open spec fn attach_tags(self, link_id: i64, ts: Seq<Seq<char>>) -> DbModel
        decreases ts.len(),
    {
        if ts.len() == 0 {
            self
        } else {
            self.attach_tags(link_id, ts.drop_last()).attach_tag(link_id, ts.last())
        }
    }

    /// Adding a link with its tags as one step: the link, every missing tag
    /// and every association, or nothing at all.
    pub open spec fn add_entry(
        self,
        link: Seq<char>,
        comment: Seq<char>,
        ts: Seq<Seq<char>>,
        timestamp: Timestamp,
    ) -> (DbModel, Result<i64, DbError>) {
        if link.len() == 0 || exists|i: int| 0 <= i < ts.len() && #[trigger] ts[i].len() == 0 {
            (self, Err(DbError::EmptyText))
        } else if self.links.len() >= max_rows() {
            (self, Err(DbError::StorageFault))
        } else {
            let (with_link, link_id) = self.create_link(link, comment, timestamp);
            let link_id = link_id->Ok_0;
            let done = with_link.attach_tags(link_id, ts);
            if done.tags.len() > max_rows() {
                (self, Err(DbError::StorageFault))
            } else {
                (done, Ok(link_id))
            }
        }
    }

    /// `self` holds `m` as a prefix of each of its tables.
    pub open spec fn extends(self, m: DbModel) -> bool {
        &&& m.links.len() <= self.links.len()
        &&& m.tags.len() <= self.tags.len()
        &&& m.link_tags.len() <= self.link_tags.len()
        &&& self.links.subrange(0, m.links.len() as int) == m.links
        &&& self.tags.subrange(0, m.tags.len() as int) == m.tags
        &&& self.link_tags.subrange(0, m.link_tags.len() as int) == m.link_tags
    }
}

pub(crate) proof fn lemma_extends_trans(a: DbModel, b: DbModel, c: DbModel)
    requires
        a.extends(b),
        b.extends(c),
    ensures
        a.extends(c),
{
    assert(a.links.subrange(0, c.links.len() as int) =~= b.links.subrange(0, c.links.len() as int));
    assert(a.tags.subrange(0, c.tags.len() as int) =~= b.tags.subrange(0, c.tags.len() as int));
    assert(a.link_tags.subrange(0, c.link_tags.len() as int) =~= b.link_tags.subrange(
        0,
        c.link_tags.len() as int,
    ));
}

pub(crate) proof fn lemma_attach_tag_extends(m: DbModel, link_id: i64, t: Seq<char>)
    ensures
        m.attach_tag(link_id, t).extends(m),
        m.attach_tag(link_id, t).links == m.links,
{
    let a = m.attach_tag(link_id, t);
    assert(a.links.subrange(0, m.links.len() as int) =~= m.links);
    assert(a.tags.subrange(0, m.tags.len() as int) =~= m.tags);
    assert(a.link_tags.subrange(0, m.link_tags.len() as int) =~= m.link_tags);
}

/// Attaching the first `i + 1` texts is attaching the first `i`, then text `i`.
pub(crate) proof fn lemma_attach_tags_step(m: DbModel, link_id: i64, ts: Seq<Seq<char>>, i: int)
    requires
        0 <= i < ts.len(),
    ensures
        m.attach_tags(link_id, ts.take(i + 1)) == m.attach_tags(link_id, ts.take(i)).attach_tag(
            link_id,
            ts[i],
        ),
{
    assert(ts.take(i + 1).drop_last() =~= ts.take(i));
    assert(ts.take(i + 1).last() == ts[i]);
}

/// Attaching more texts never shrinks the tag table.
pub(crate) proof fn lemma_attach_tags_grows(m: DbModel, link_id: i64, ts: Seq<Seq<char>>, k: int)
    requires
        0 <= k <= ts.len(),
    ensures
        m.attach_tags(link_id, ts).tags.len() >= m.attach_tags(link_id, ts.take(k)).tags.len(),
    decreases ts.len(),
{
    if k == ts.len() {
        assert(ts.take(k) =~= ts);
    } else {
        let prev = ts.drop_last();
        lemma_attach_tags_grows(m, link_id, prev, k);
        assert(prev.take(k) =~= ts.take(k));
    }
}

/// The tag texts that associations with `link_id` name, in the order the
/// associations were made.
pub open spec fn linked_tags(pairs: Seq<(i64, i64)>, tags: Seq<Seq<char>>, link_id: i64) -> Seq<
    Seq<char>,
>
    decreases pairs.len(),
{
    if pairs.len() == 0 {
        Seq::empty()
    } else {
        let rest = linked_tags(pairs.drop_last(), tags, link_id);
        let p = pairs.last();
        if p.0 == link_id {
            rest.push(tags[p.1 - 1])
        } else {
            rest
        }
    }
}

} // verus!
