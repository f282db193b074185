//! Links, tags and their associations, kept in one store.
//!
//! A link enters the store in the reading queue and moves to the archive once
//! it has been read. Tags are unique by their exact text; a link may carry
//! any number of tags and a tag any number of links.

use vstd::prelude::*;

use crate::model::{
    lemma_attach_tag_extends, lemma_attach_tags_grows, lemma_attach_tags_step, lemma_extends_trans,
    linked_tags, max_rows, DbModel, LinkModel,
};

verus! {

/// Where a link stands in reading: still queued, or read and archived.
#[derive(Clone, Copy, Debug, PartialEq, Eq, Structural)]
pub enum Archive {
    Queue,
    Archived,
}

/// A point in time, as whole seconds since 1970-01-01 00:00:00 and the
/// nanoseconds past that second.
#[derive(Clone, Copy, Debug, PartialEq, Eq, Structural)]
pub struct Timestamp {
    pub secs: i64,
    pub nanos: u32,
}

/// A sorting or grouping text that entries can be queried by.
pub struct Tag<'a> {
    detail: &'a str,
}

/// A remark on a link; a link has at most one.
pub struct Comment<'a> {
    detail: &'a str,
}

/// What a caller hands over to add one link to the store.
pub struct Entry<'a> {
    /// The link itself.
    pub link: &'a str,
    /// An optional remark on the link.
    pub comment: Option<&'a str>,
    /// Optional tags, attached in this order.
    pub tags: Option<Vec<&'a str>>,
    /// Not consulted: a new link always starts in the queue.
    pub archive: Archive,
    /// When the link was added.
    pub timestamp: Timestamp,
}

/// Why an operation on the store failed.
#[derive(Clone, Copy, Debug, PartialEq, Eq, Structural)]
pub enum DbError {
    /// The store cannot take another row: its identifiers are used up.
    StorageFault,
    /// No link has the given identifier.
    NotFound,
    /// An association would name a link or a tag that does not exist.
    ReferentialError,
    /// A link or a tag text is empty.
    EmptyText,
}

/// The outcome of inserting a tag.
#[derive(Clone, Copy, Debug, PartialEq, Eq, Structural)]
pub enum TagAddResult {
    TagAlreadyExists,
    TagId(i64),
}

/// The outcome of looking a tag up by its text.
#[derive(Clone, Copy, Debug, PartialEq, Eq, Structural)]
pub enum TagQueryResult {
    TagNotFound,
    TagId(i64),
}

impl PartialEq<TagQueryResult> for TagAddResult {
    /// A created tag and a found tag are equal when their identifiers are.
    fn eq(&self, other: &TagQueryResult) -> (r: bool) {
        match (self, other) {
            (TagAddResult::TagId(i), TagQueryResult::TagId(j)) => *i == *j,
            _ => false,
        }
    }
}

impl vstd::std_specs::cmp::PartialEqSpecImpl<TagQueryResult> for TagAddResult {
    open spec fn obeys_eq_spec() -> bool {
        true
    }

    open spec fn eq_spec(&self, other: &TagQueryResult) -> bool {
        match (*self, *other) {
            (TagAddResult::TagId(i), TagQueryResult::TagId(j)) => i == j,
            _ => false,
        }
    }
}

impl PartialEq<TagAddResult> for TagQueryResult {
    /// A found tag and a created tag are equal when their identifiers are.
    fn eq(&self, other: &TagAddResult) -> (r: bool) {
        match (self, other) {
            (TagQueryResult::TagId(i), TagAddResult::TagId(j)) => *i == *j,
            _ => false,
        }
    }
}

impl vstd::std_specs::cmp::PartialEqSpecImpl<TagAddResult> for TagQueryResult {
    open spec fn obeys_eq_spec() -> bool {
        true
    }

    open spec fn eq_spec(&self, other: &TagAddResult) -> bool {
        match (*self, *other) {
            (TagQueryResult::TagId(i), TagAddResult::TagId(j)) => i == j,
            _ => false,
        }
    }
}

impl<'a> Tag<'a> {
    /// A tag with the given text.
    pub fn new(detail: &'a str) -> (r: Tag<'a>)
        ensures
            r.spec_detail() == detail,
    {
        Tag { detail }
    }

    /// Its text.
    pub fn detail(&self) -> (r: &'a str)
        ensures
            r == self.spec_detail(),
    {
        self.detail
    }

    /// Its text, in specifications.
    pub closed spec fn spec_detail(&self) -> &'a str {
        self.detail
    }
}

impl<'a> Comment<'a> {
    /// A comment with the given text.
    pub fn new(detail: &'a str) -> (r: Comment<'a>)
        ensures
            r.spec_detail() == detail,
    {
        Comment { detail }
    }

    /// Its text.
    pub fn detail(&self) -> (r: &'a str)
        ensures
            r == self.spec_detail(),
    {
        self.detail
    }

    /// Its text, in specifications.
    pub closed spec fn spec_detail(&self) -> &'a str {
        self.detail
    }
}

struct LinkRecord {
    link: String,
    comment: String,
    archive: Archive,
    timestamp: Timestamp,
}

impl LinkRecord {
    spec fn model(&self) -> LinkModel {
        LinkModel {
            link: self.link@,
            comment: self.comment@,
            archive: self.archive,
            timestamp: self.timestamp,
        }
    }
}

/// The store of links, tags and associations.
pub struct Database {
    links: Vec<LinkRecord>,
    tags: Vec<String>,
    link_tags: Vec<(i64, i64)>,
}

impl View for Database {
    type V = DbModel;

    closed spec fn view(&self) -> DbModel {
        DbModel {
            links: self.links@.map_values(|r: LinkRecord| r.model()),
            tags: texts(self.tags@),
            link_tags: self.link_tags@,
        }
    }
}

impl Database {
    /// A new, empty store.
    pub fn open_in_memory() -> (r: Result<Database, DbError>)
        ensures
            r matches Ok(db) && db@ == DbModel::empty() && db@.wf(),
    {
        let db = Database { links: Vec::new(), tags: Vec::new(), link_tags: Vec::new() };
        proof {
            assert(db@.links =~= Seq::empty());
            assert(db@.tags =~= Seq::empty());
        }
        Ok(db)
    }

    /// The identifier of the tag whose text is exactly `tag`.
    pub fn get_tag_id(&self, tag: &str) -> (r: Result<TagQueryResult, DbError>)
        requires
            self@.wf(),
        ensures
            r == Ok::<TagQueryResult, DbError>(self@.find_tag(tag@)),
    {
        let key = tag.to_owned();
        let n = self.tags.len();
        let mut i: usize = 0;
        while i < n
            invariant
                n == self.tags.len(),
                key@ == tag@,
                self@.wf(),
                i <= n,
                forall|j: int| 0 <= j < i ==> self@.tags[j] != tag@,
            decreases n - i,
        {
            if self.tags[i] == key {
                proof {
                    assert(self@.tags[i as int] == tag@);
                    assert(self@.tags.contains(tag@));
                    assert(self@.tags.index_of(tag@) == i);
                }
                return Ok(TagQueryResult::TagId((i + 1) as i64));
            }
            i = i + 1;
        }
        Ok(TagQueryResult::TagNotFound)
    }

    /// Whether a tag with exactly the text `tag` exists.
    pub fn contains_tag(&self, tag: &str) -> (r: Result<bool, DbError>)
        requires
            self@.wf(),
        ensures
            r == Ok::<bool, DbError>(self@.tags.contains(tag@)),
    {
        match self.get_tag_id(tag) {
            Ok(TagQueryResult::TagId(_)) => Ok(true),
            Ok(TagQueryResult::TagNotFound) => Ok(false),
            Err(e) => Err(e),
        }
    }

    /// Every tag text, in the order the tags were created.
    pub fn list_tags(&self) -> (r: Result<Vec<String>, DbError>)
        ensures
            r matches Ok(v) && texts(v@) == self@.tags,
    {
        let mut out: Vec<String> = Vec::new();
        let n = self.tags.len();
        let mut i: usize = 0;
        while i < n
            invariant
                n == self.tags.len(),
                i <= n,
                texts(out@) == self@.tags.subrange(0, i as int),
            decreases n - i,
        {
            let ghost before = out@;
            let t = self.tags[i].clone();
            assert(t@ == self.tags@[i as int]@);
            out.push(t);
            proof {
                assert(out@ == before.push(t));
                lemma_texts_push(before, t);
                assert(texts(out@) =~= self@.tags.subrange(0, i + 1));
            }
            i = i + 1;
        }
        proof {
            assert(self@.tags.subrange(0, n as int) =~= self@.tags);
        }
        Ok(out)
    }

    /// Inserts a tag unless one with the same text exists; only a new tag's
    /// identifier is returned.
    pub fn add_tag(&mut self, tag: &str) -> (r: Result<TagAddResult, DbError>)
        requires
            old(self)@.wf(),
        ensures
            final(self)@.wf(),
            (final(self)@, r) == old(self)@.add_tag(tag@),
    {
        if tag.is_empty() {
            return Err(DbError::EmptyText);
        }
        match self.get_tag_id(tag) {
            Ok(TagQueryResult::TagId(_)) => {
                return Ok(TagAddResult::TagAlreadyExists);
            },
            Ok(TagQueryResult::TagNotFound) => {},
            Err(e) => {
                return Err(e);
            },
        }
        if !has_room(self.tags.len()) {
            return Err(DbError::StorageFault);
        }
        let id = self.tags.len() as i64 + 1;
        self.tags.push(tag.to_owned());
        proof {
            let m = old(self)@;
            assert(!m.tags.contains(tag@));
            assert(self@.tags =~= m.tags.push(tag@));
            assert(self@.links =~= m.links);
            assert forall|i: int, j: int|
                0 <= i < self@.tags.len() && 0 <= j < self@.tags.len() && i != j implies self@.tags[i]
                != self@.tags[j] by {
                if i < m.tags.len() && j < m.tags.len() {
                    assert(m.tags[i] != m.tags[j]);
                } else if i < m.tags.len() {
                    assert(m.tags[i] != tag@);
                } else if j < m.tags.len() {
                    assert(m.tags[j] != tag@);
                }
            }
            assert forall|k: int| 0 <= k < self@.link_tags.len() implies #[trigger] self@.refers(
                self@.link_tags[k],
            ) by {
                assert(m.refers(m.link_tags[k]));
            }
        }
        Ok(TagAddResult::TagId(id))
    }

    /// Appends a link to the reading queue, with its comment (empty when
    /// there is none) and the time it was added.
    pub fn create_link(&mut self, link: &str, comment: Option<&str>, timestamp: Timestamp) -> (r:
        Result<i64, DbError>)
        requires
            old(self)@.wf(),
        ensures
            final(self)@.wf(),
            (final(self)@, r) == old(self)@.create_link(link@, comment_text(comment), timestamp),
    {
        if link.is_empty() {
            return Err(DbError::EmptyText);
        }
        if !has_room(self.links.len()) {
            return Err(DbError::StorageFault);
        }
        let comment = match comment {
            Some(c) => c.to_owned(),
            None => String::new(),
        };
        let id = self.links.len() as i64 + 1;
        let row = LinkRecord { link: link.to_owned(), comment, archive: Archive::Queue, timestamp };
        self.links.push(row);
        proof {
            let m = old(self)@;
            assert(self@.links =~= m.links.push(row.model()));
            assert(self@.tags =~= m.tags);
            assert forall|k: int| 0 <= k < self@.link_tags.len() implies #[trigger] self@.refers(
                self@.link_tags[k],
            ) by {
                assert(m.refers(m.link_tags[k]));
            }
        }
        Ok(id)
    }

    /// Moves a link to the archive. Marking an archived link again changes
    /// nothing and is no error.
    pub fn mark_read(&mut self, link_id: i64) -> (r: Result<(), DbError>)
        requires
            old(self)@.wf(),
        ensures
            final(self)@.wf(),
            (final(self)@, r) == old(self)@.mark_read(link_id),
    {
        if link_id < 1 || link_id as u64 > self.links.len() as u64 {
            return Err(DbError::NotFound);
        }
        let i = (link_id - 1) as usize;
        self.links[i].archive = Archive::Archived;
        proof {
            let m = old(self)@;
            let read = LinkModel { archive: Archive::Archived, ..m.links[link_id - 1] };
            assert(self@.links =~= m.links.update(link_id - 1, read));
            assert(self@.tags =~= m.tags);
            assert forall|k: int| 0 <= k < self@.link_tags.len() implies #[trigger] self@.refers(
                self@.link_tags[k],
            ) by {
                assert(m.refers(m.link_tags[k]));
            }
        }
        Ok(())
    }

    /// Associates tag `tag_id` with link `link_id`; an existing association
    /// is kept as it is.
    pub fn link_tag(&mut self, link_id: i64, tag_id: i64) -> (r: Result<(), DbError>)
        requires
            old(self)@.wf(),
        ensures
            final(self)@.wf(),
            (final(self)@, r) == old(self)@.link_tag(link_id, tag_id),
    {
        if link_id < 1 || link_id as u64 > self.links.len() as u64 || tag_id < 1 || tag_id as u64
            > self.tags.len() as u64 {
            return Err(DbError::ReferentialError);
        }
        let n = self.link_tags.len();
        let mut k: usize = 0;
        while k < n
            invariant
                n == self.link_tags.len(),
                k <= n,
                *self == *old(self),
                old(self)@.wf(),
                self@.has_link(link_id),
                self@.has_tag_id(tag_id),
                forall|j: int| 0 <= j < k ==> self.link_tags@[j] != (link_id, tag_id),
            decreases n - k,
        {
            let p = self.link_tags[k];
            if p.0 == link_id && p.1 == tag_id {
                proof {
                    assert(self@.link_tags[k as int] == (link_id, tag_id));
                    assert(self@.link_tags.contains((link_id, tag_id)));
                }
                return Ok(());
            }
            k = k + 1;
        }
        self.link_tags.push((link_id, tag_id));
        proof {
            let m = old(self)@;
            assert(!m.link_tags.contains((link_id, tag_id)));
            assert(self@.link_tags =~= m.link_tags.push((link_id, tag_id)));
            assert(self@.links =~= m.links);
            assert(self@.tags =~= m.tags);
            assert forall|k: int| 0 <= k < self@.link_tags.len() implies #[trigger] self@.refers(
                self@.link_tags[k],
            ) by {
                if k < m.link_tags.len() {
                    assert(m.refers(m.link_tags[k]));
                }
            }
            assert(self@.link_tags.no_duplicates());
        }
        Ok(())
    }

    /// The stored row of link `link_id`: its text, its comment, where it
    /// stands in reading, and when it was added.
    pub fn get_link(&self, link_id: i64) -> (r: Result<(String, String, Archive, Timestamp), DbError>)
        requires
            self@.wf(),
        ensures
            match r {
                Ok(row) => self@.has_link(link_id) && (LinkModel {
                    link: row.0@,
                    comment: row.1@,
                    archive: row.2,
                    timestamp: row.3,
                }) == self@.links[link_id - 1],
                Err(e) => !self@.has_link(link_id) && e == DbError::NotFound,
            },
    {
        if link_id < 1 || link_id as u64 > self.links.len() as u64 {
            return Err(DbError::NotFound);
        }
        let row = &self.links[(link_id - 1) as usize];
        Ok((row.link.clone(), row.comment.clone(), row.archive, row.timestamp))
    }

    /// The number of links in the store; their identifiers run from one up to it.
    pub fn link_count(&self) -> (r: usize)
        ensures
            r == self@.links.len(),
    {
        self.links.len()
    }

    /// Adds a link with its comment and tags as one step. The link starts in
    /// the queue; each tag is created unless its text exists, then attached to
    /// the link. On any failure the store is left as it was.
    pub fn add_entry(&mut self, entry: Entry) -> (r: Result<i64, DbError>)
        requires
            old(self)@.wf(),
        ensures
            final(self)@.wf(),
            (final(self)@, r) == old(self)@.add_entry(
                entry.link@,
                comment_text(entry.comment),
                tag_texts(entry.tags),
                entry.timestamp,
            ),
    {
        let Entry { link, comment, tags, archive: _, timestamp } = entry;
        let tags: Vec<&str> = match tags {
            Some(v) => v,
            None => Vec::new(),
        };
        let ghost ts = tag_texts(entry.tags);
        proof {
            assert(ts =~= str_texts(tags@));
        }
        if link.is_empty() {
            return Err(DbError::EmptyText);
        }
        let nt = tags.len();
        let mut i: usize = 0;
        while i < nt
            invariant
                nt == tags.len(),
                ts == str_texts(tags@),
                ts == tag_texts(entry.tags),
                link == entry.link,
                comment == entry.comment,
                timestamp == entry.timestamp,
                i <= nt,
                *self == *old(self),
                old(self)@.wf(),
                forall|j: int| 0 <= j < i ==> #[trigger] ts[j].len() > 0,
            decreases nt - i,
        {
            if tags[i].is_empty() {
                proof {
                    assert(ts[i as int].len() == 0);
                }
                return Err(DbError::EmptyText);
            }
            i = i + 1;
        }
        let ghost start = self@;
        let saved_links = self.links.len();
        let saved_tags = self.tags.len();
        let saved_pairs = self.link_tags.len();
        let link_id = match self.create_link(link, comment, timestamp) {
            Ok(id) => id,
            Err(e) => {
                return Err(e);
            },
        };
        let ghost mid = self@;
        proof {
            assert(mid.links.subrange(0, start.links.len() as int) =~= start.links);
            assert(mid.tags.subrange(0, start.tags.len() as int) =~= start.tags);
            assert(mid.link_tags.subrange(0, start.link_tags.len() as int) =~= start.link_tags);
            assert(mid.links.subrange(0, mid.links.len() as int) =~= mid.links);
            assert(mid.tags.subrange(0, mid.tags.len() as int) =~= mid.tags);
            assert(mid.link_tags.subrange(0, mid.link_tags.len() as int) =~= mid.link_tags);
            assert(ts.take(0) =~= Seq::<Seq<char>>::empty());
        }
        let mut i: usize = 0;
        while i < nt
            invariant
                nt == tags.len(),
                ts == str_texts(tags@),
                ts == tag_texts(entry.tags),
                link == entry.link,
                comment == entry.comment,
                timestamp == entry.timestamp,
                i <= nt,
                forall|j: int| 0 <= j < nt ==> #[trigger] ts[j].len() > 0,
                start == old(self)@,
                start.wf(),
                mid.extends(start),
                mid == start.create_link(link@, comment_text(comment), timestamp).0,
                link_id == start.links.len() + 1,
                mid.links.len() == link_id,
                saved_links == start.links.len(),
                saved_tags == start.tags.len(),
                saved_pairs == start.link_tags.len(),
                self@.wf(),
                self@ == mid.attach_tags(link_id, ts.take(i as int)),
                self@.extends(mid),
                self@.links == mid.links,
            decreases nt - i,
        {
            let ghost cur = self@;
            let t = tags[i];
            proof {
                lemma_attach_tags_step(mid, link_id, ts, i as int);
                lemma_attach_tag_extends(cur, link_id, t@);
                assert(ts[i as int] == t@);
            }
            let tag_id = match self.add_tag(t) {
                Ok(TagAddResult::TagId(id)) => id,
                Ok(TagAddResult::TagAlreadyExists) => match self.get_tag_id(t) {
                    Ok(TagQueryResult::TagId(id)) => id,
                    _ => {
                        // The tag was just reported present, so it is found.
                        proof {
                            assert(false);
                        }
                        return Err(DbError::StorageFault);
                    },
                },
                Err(e) => {
                    // The tag table is full: undo this entry's rows.
                    proof {
                        assert(e == DbError::StorageFault);
                        assert(cur.attach_tag(link_id, t@).tags.len() == cur.tags.len() + 1);
                        lemma_attach_tags_grows(mid, link_id, ts, i + 1);
                        lemma_extends_trans(cur, mid, start);
                    }
                    self.restore(saved_links, saved_tags, saved_pairs, Ghost(start));
                    return Err(e);
                },
            };
            proof {
                assert(tag_id == cur.tag_id_for(t@));
            }
            match self.link_tag(link_id, tag_id) {
                Ok(()) => {},
                Err(e) => {
                    // Both rows exist: the link was just made and the tag is in place.
                    proof {
                        assert(false);
                    }
                    return Err(e);
                },
            }
            proof {
                assert(self@.tags =~= cur.attach_tag(link_id, t@).tags);
                assert(self@.link_tags =~= cur.attach_tag(link_id, t@).link_tags);
                lemma_extends_trans(self@, cur, mid);
            }
            i = i + 1;
        }
        proof {
            assert(ts.take(nt as int) =~= ts);
        }
        Ok(link_id)
    }

    /// Cuts each table back to the given length.
    fn restore(&mut self, nl: usize, nt: usize, na: usize, to: Ghost<DbModel>)
        requires
            old(self)@.extends(to@),
            nl == to@.links.len(),
            nt == to@.tags.len(),
            na == to@.link_tags.len(),
        ensures
            final(self)@ == to@,
    {
        self.links.truncate(nl);
        self.tags.truncate(nt);
        self.link_tags.truncate(na);
        proof {
            assert(self@.links =~= to@.links);
            assert(self@.tags =~= to@.tags);
            assert(self@.link_tags =~= to@.link_tags);
        }
    }

    /// The tags of link `link_id`, in the order they were attached to it.
    pub fn tags_for_link(&self, link_id: i64) -> (r: Result<Vec<String>, DbError>)
        requires
            self@.wf(),
        ensures
            match (r, self@.tags_for_link(link_id)) {
                (Ok(v), Ok(ts)) => texts(v@) == ts,
                (Err(e), Err(f)) => e == f,
                _ => false,
            },
    {
        if link_id < 1 || link_id as u64 > self.links.len() as u64 {
            return Err(DbError::NotFound);
        }
        let mut out: Vec<String> = Vec::new();
        let n = self.link_tags.len();
        let mut k: usize = 0;
        while k < n
            invariant
                n == self.link_tags.len(),
                k <= n,
                self@.wf(),
                texts(out@) == linked_tags(
                    self@.link_tags.subrange(0, k as int),
                    self@.tags,
                    link_id,
                ),
            decreases n - k,
        {
            let p = self.link_tags[k];
            let ghost before = out@;
            proof {
                let pre = self@.link_tags.subrange(0, k + 1);
                assert(pre.drop_last() =~= self@.link_tags.subrange(0, k as int));
                assert(pre.last() == p);
                assert(self@.refers(self@.link_tags[k as int]));
            }
            if p.0 == link_id {
                assert(1 <= p.1 <= self.tags.len());
                let ti = (p.1 - 1) as usize;
                let t = self.tags[ti].clone();
                out.push(t);
                proof {
                    assert(t == self.tags@[p.1 - 1]);
                    assert(out@ == before.push(self.tags@[p.1 - 1]));
                    lemma_texts_push(before, self.tags@[p.1 - 1]);
                    assert(texts(out@) =~= texts(before).push(
                        self@.tags[p.1 - 1],
                    ));
                }
            }
            k = k + 1;
        }
        proof {
            assert(self@.link_tags.subrange(0, n as int) =~= self@.link_tags);
        }
        Ok(out)
    }
}

/// The texts of a sequence of strings.
pub open spec fn texts(v: Seq<String>) -> Seq<Seq<char>> {
    v.map_values(|s: String| s@)
}

proof fn lemma_texts_push(v: Seq<String>, s: String)
    ensures
        texts(v.push(s)) == texts(v).push(s@),
{
    assert(texts(v.push(s)) =~= texts(v).push(s@));
}

/// The texts of a sequence of string slices.
pub open spec fn str_texts(v: Seq<&str>) -> Seq<Seq<char>> {
    v.map_values(|s: &str| s@)
}

/// The tag texts an entry carries, in order; none when it carries no list.
pub open spec fn tag_texts(tags: Option<Vec<&str>>) -> Seq<Seq<char>> {
    match tags {
        Some(v) => str_texts(v@),
        None => Seq::empty(),
    }
}

/// The comment a link is stored with: none is the empty text.
pub open spec fn comment_text(comment: Option<&str>) -> Seq<char> {
    match comment {
        Some(c) => c@,
        None => Seq::empty(),
    }
}

/// Whether a table of `len` rows can take one more.
fn has_room(len: usize) -> (r: bool)
    ensures
        r == (len < max_rows()),
{
    (len as u64) < (i64::MAX as u64)
}

} // verus!
