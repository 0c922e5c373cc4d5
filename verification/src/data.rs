//! Accessor views over a loaded database.
//!
//! A [`Tag`] or [`Term`] is a cheap non-owning view: it carries a borrow of
//! the [`DB`] and a copy of one raw record, and dereferences handles on
//! demand.  Dereferenced text is returned as owned UTF-8 bytes.

use vstd::prelude::*;

use crate::db::DB;
use crate::raw::RawInt32;
use crate::raw::TagRaw;
use crate::raw::TermRaw;

verus! {

/// A tag from the database.
pub struct Tag<'db> {
    pub(crate) data: &'db DB,
    pub(crate) item: TagRaw,
}

impl<'db> Tag<'db> {
    /// The view is backed by a database whose arenas resolve every handle of
    /// the record.
    pub closed spec fn wf(self) -> bool {
        self.data@.strings_ok() && self.data@.tag_ok(self.item)
    }

    /// The raw record behind the view.
    pub closed spec fn raw(self) -> TagRaw {
        self.item
    }

    /// The model of the backing database.
    pub closed spec fn db(self) -> crate::db::DbModel {
        self.data@
    }

    /// Tag name.
    pub fn name(&self) -> (r: Vec<u8>)
        requires
            self.wf(),
        ensures
            r@ == self.db().strv(self.raw().name),
    {
        self.data.get_str(self.item.name)
    }

    /// Tag category.
    pub fn category(&self) -> (r: Vec<u8>)
        requires
            self.wf(),
        ensures
            r@ == self.db().strv(self.raw().category),
    {
        self.data.get_str(self.item.category)
    }

    /// Tag order.  Can be used to sort the list of tags in a search result.
    pub fn order(&self) -> (r: i32)
        ensures
            r == self.raw().order as i32,
    {
        RawInt32::from_bits(self.item.order).value
    }

    /// Tag notes.
    pub fn notes(&self) -> (r: Vec<u8>)
        requires
            self.wf(),
        ensures
            r@ == self.db().strv(self.raw().notes),
    {
        self.data.get_str(self.item.notes)
    }
}

/// Term from the database.
pub struct Term<'db> {
    pub(crate) pos: usize,
    pub(crate) data: &'db DB,
    pub(crate) item: TermRaw,
}

impl<'db> Term<'db> {
    /// The view is backed by a database whose arenas resolve every handle of
    /// the record.
    pub closed spec fn wf(self) -> bool {
        &&& self.data@.strings_ok()
        &&& self.data@.tags_ok()
        &&& self.data@.term_ok(self.item)
    }

    /// The raw record behind the view.
    pub closed spec fn raw(self) -> TermRaw {
        self.item
    }

    /// The model of the backing database.
    pub closed spec fn db(self) -> crate::db::DbModel {
        self.data@
    }

    /// The position of the term in the sorted term table.
    pub closed spec fn position(self) -> usize {
        self.pos
    }

    /// Main Japanese expression for the term.
    pub fn expression(&self) -> (r: Vec<u8>)
        requires
            self.wf(),
        ensures
            r@ == self.db().strv(self.raw().expression),
    {
        self.data.get_str(self.item.expression)
    }

    /// Reading for the term, if available.
    pub fn reading(&self) -> (r: Vec<u8>)
        requires
            self.wf(),
        ensures
            r@ == self.db().strv(self.raw().reading),
    {
        self.data.get_str(self.item.reading)
    }

    /// An additional search key for the term: a filtered version of the
    /// expression or reading.
    pub fn search_key(&self) -> (r: Vec<u8>)
        requires
            self.wf(),
        ensures
            r@ == self.db().strv(self.raw().search_key),
    {
        self.data.get_str(self.item.search_key)
    }

    /// Score: an additional attribute by which terms are ordered.
    pub fn score(&self) -> (r: i32)
        ensures
            r == self.raw().score as i32,
    {
        RawInt32::from_bits(self.item.score).value
    }

    /// Sequence number of the entry in the source dictionary.
    pub fn sequence(&self) -> (r: u32)
        ensures
            r == self.raw().sequence,
    {
        self.item.sequence
    }

    /// Number of occurrences of the term in the frequency data, when known.
    pub fn frequency(&self) -> (r: Option<u32>)
        ensures
            self.raw().frequency > 0 ==> r == Some(self.raw().frequency),
            self.raw().frequency == 0 ==> r is None,
    {
        if self.item.frequency > 0 {
            Some(self.item.frequency)
        } else {
            None
        }
    }

    /// Source dictionary name.
    pub fn source(&self) -> (r: Vec<u8>)
        requires
            self.wf(),
        ensures
            r@ == self.db().strv(self.raw().source),
    {
        self.data.get_str(self.item.source)
    }

    /// English definitions for the term.
    pub fn glossary(&self) -> (r: Vec<Vec<u8>>)
        requires
            self.wf(),
        ensures
            r@.len() == self.db().vecv(self.raw().glossary).len(),
            forall|i: int|
                0 <= i < r@.len() ==> #[trigger] r@[i]@ == self.db().strv(
                    self.db().vecv(self.raw().glossary)[i],
                ),
    {
        let handles = self.data.get_list(self.item.glossary);
        let mut out: Vec<Vec<u8>> = Vec::new();
        let mut i: usize = 0;
        while i < handles.len()
            invariant
                self.wf(),
                handles@ == self.db().vecv(self.raw().glossary),
                0 <= i <= handles@.len(),
                out@.len() == i,
                forall|j: int|
                    0 <= j < i ==> #[trigger] out@[j]@ == self.db().strv(handles@[j]),
            decreases handles@.len() - i,
        {
            assert(self.db().strs_vec_ok(self.raw().glossary));
            out.push(self.data.get_str(handles[i]));
            i = i + 1;
        }
        out
    }

    /// Semantic rule tags for the term.
    pub fn rules(&self) -> (r: Vec<Tag<'db>>)
        requires
            self.wf(),
        ensures
            r@.len() == self.db().vecv(self.raw().rules).len(),
            forall|i: int|
                0 <= i < r@.len() ==> (#[trigger] r@[i]).wf() && r@[i].db() == self.db()
                    && r@[i].raw() == self.db().tags[self.db().vecv(self.raw().rules)[i] as int],
    {
        self.tag_list(self.item.rules)
    }

    /// Tags of the Japanese term.
    pub fn term_tags(&self) -> (r: Vec<Tag<'db>>)
        requires
            self.wf(),
        ensures
            r@.len() == self.db().vecv(self.raw().term_tags).len(),
            forall|i: int|
                0 <= i < r@.len() ==> (#[trigger] r@[i]).wf() && r@[i].db() == self.db()
                    && r@[i].raw() == self.db().tags[self.db().vecv(self.raw().term_tags)[i] as int],
    {
        self.tag_list(self.item.term_tags)
    }

    /// Tags of the English definition.
    pub fn definition_tags(&self) -> (r: Vec<Tag<'db>>)
        requires
            self.wf(),
        ensures
            r@.len() == self.db().vecv(self.raw().definition_tags).len(),
            forall|i: int|
                0 <= i < r@.len() ==> (#[trigger] r@[i]).wf() && r@[i].db() == self.db()
                    && r@[i].raw() == self.db().tags[self.db().vecv(
                    self.raw().definition_tags,
                )[i] as int],
    {
        self.tag_list(self.item.definition_tags)
    }

    fn tag_list(&self, handle: crate::raw::VecHandle) -> (r: Vec<Tag<'db>>)
        requires
            self.wf(),
            self.db().tags_vec_ok(handle),
        ensures
            r@.len() == self.db().vecv(handle).len(),
            forall|i: int|
                0 <= i < r@.len() ==> (#[trigger] r@[i]).wf() && r@[i].db() == self.db()
                    && r@[i].raw() == self.db().tags[self.db().vecv(handle)[i] as int],
    {
        let handles = self.data.get_list(handle);
        let mut out: Vec<Tag<'db>> = Vec::new();
        let mut i: usize = 0;
        while i < handles.len()
            invariant
                self.wf(),
                self.db().tags_vec_ok(handle),
                handles@ == self.db().vecv(handle),
                0 <= i <= handles@.len(),
                out@.len() == i,
                forall|j: int|
                    0 <= j < i ==> (#[trigger] out@[j]).wf() && out@[j].db() == self.db()
                        && out@[j].raw() == self.db().tags[self.db().vecv(handle)[j] as int],
            decreases handles@.len() - i,
        {
            let tag_index = handles[i];
            assert(self.db().vecv(handle)[i as int] < self.db().tags.len());
            out.push(
                Tag { data: self.data, item: self.data.tag_at(tag_index as usize) },
            );
            i = i + 1;
        }
        out
    }
}

impl DB {
    /// The term at `index` of the sorted term table, when it exists.
    pub fn term<'a>(&'a self, index: usize) -> (r: Option<Term<'a>>)
        requires
            self@.strings_ok(),
            self@.tags_ok(),
            self@.terms_ok(),
        ensures
            (index < self@.terms.len()) == (r is Some),
            r matches Some(t) ==> t.wf() && t.db() == self@ && t.position() == index && t.raw()
                == self@.terms[index as int],
    {
        if index < self.terms_len() {
            Some(Term { pos: index, data: self, item: self.term_at(index) })
        } else {
            None
        }
    }

    /// The tag view for tag table entry `index`.
    pub fn get_tag<'a>(&'a self, index: u32) -> (r: Tag<'a>)
        requires
            self@.strings_ok(),
            self@.tags_ok(),
            index < self@.tags.len(),
        ensures
            r.wf(),
            r.db() == self@,
            r.raw() == self@.tags[index as int],
    {
        Tag { data: self, item: self.tag_at(index as usize) }
    }

    /// The tag views for every tag index in the list named by `tags`.
    pub fn get_tags<'a>(&'a self, tags: crate::raw::VecHandle) -> (r: Vec<Tag<'a>>)
        requires
            self@.strings_ok(),
            self@.tags_ok(),
            self@.tags_vec_ok(tags),
        ensures
            r@.len() == self@.vecv(tags).len(),
            forall|i: int|
                0 <= i < r@.len() ==> (#[trigger] r@[i]).wf() && r@[i].db() == self@ && r@[i].raw()
                    == self@.tags[self@.vecv(tags)[i] as int],
    {
        let handles = self.get_list(tags);
        let mut out: Vec<Tag<'a>> = Vec::new();
        let mut i: usize = 0;
        while i < handles.len()
            invariant
                self@.strings_ok(),
                self@.tags_ok(),
                self@.tags_vec_ok(tags),
                handles@ == self@.vecv(tags),
                0 <= i <= handles@.len(),
                out@.len() == i,
                forall|j: int|
                    0 <= j < i ==> (#[trigger] out@[j]).wf() && out@[j].db() == self@
                        && out@[j].raw() == self@.tags[self@.vecv(tags)[j] as int],
            decreases handles@.len() - i,
        {
            let tag_index = handles[i];
            assert(self@.vecv(tags)[i as int] < self@.tags.len());
            out.push(Tag { data: self, item: self.tag_at(tag_index as usize) });
            i = i + 1;
        }
        out
    }
}

} // verus!
