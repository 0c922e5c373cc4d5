//! Root structure for the Japanese dictionary database.
//!
//! A [`DB`] holds the typed sections of one binary blob: the tag, term and
//! kanji records, the three search indexes, and the two shared arenas (the
//! `u32` vector arena and the string arena with its handle list).  The
//! mathematical model of a database is [`DbModel`]; [`DbModel::valid`] states
//! every structural invariant that the builder establishes and the validator
//! re-checks on untrusted blobs.

use vstd::prelude::*;

use crate::grapheme::grev;
use crate::grapheme::reverse_graphemes;
use crate::order::bytes_cmp;
use crate::order::bytes_eq;
use crate::order::lemma_lex_le_trans;
use crate::order::lex_le;
use crate::raw::CharIndex;
use crate::raw::KanjiRaw;
use crate::raw::StrHandle;
use crate::raw::TagRaw;
use crate::raw::TermIndex;
use crate::raw::TermRaw;
use crate::raw::VecHandle;

verus! {

/// Which section of the blob an error location points into.
#[derive(Clone, Copy, PartialEq, Eq, Structural, Debug)]
pub enum Section {
    Tags,
    Terms,
    Kanji,
    IndexPrefix,
    IndexSuffix,
    IndexChars,
    VectorData,
    StringList,
    StringData,
}

/// Errors surfaced by the builder, the loader and the validator.
#[derive(Clone, Copy, PartialEq, Eq, Structural, Debug)]
pub enum DbError {
    /// A record references a tag name that was never registered.
    UnknownTag,
    /// The blob breaks a structural invariant; `section` and `row` locate a
    /// failure (`row` is the record index within the section).
    MalformedBlob { section: Section, row: usize },
    /// An arena or section outgrew the 32-bit handles of the on-disk format.
    Capacity,
}

/// The mathematical model of a loaded database: every section as a sequence.
#[verifier::ext_equal]
pub ghost struct DbModel {
    pub tags: Seq<TagRaw>,
    pub terms: Seq<TermRaw>,
    pub kanji: Seq<KanjiRaw>,
    pub index_prefix_jp: Seq<TermIndex>,
    pub index_suffix_jp: Seq<TermIndex>,
    pub index_chars_jp: Seq<CharIndex>,
    pub vector_data: Seq<u32>,
    pub string_list: Seq<StrHandle>,
    pub string_data: Seq<u8>,
}

impl DbModel {
    /// The bytes of the string named by handle `h`.
    pub open spec fn strv(self, h: u32) -> Seq<u8> {
        let e = self.string_list[h as int];
        self.string_data.subrange(e.offset as int, e.offset + e.length)
    }

    /// The elements of the list named by handle `h`.
    pub open spec fn vecv(self, h: VecHandle) -> Seq<u32> {
        self.vector_data.subrange(h.offset as int, h.offset + h.length)
    }

    /// String handle `h` names an entry of the string list.
    pub open spec fn str_ok(self, h: u32) -> bool {
        h < self.string_list.len()
    }

    /// Vector handle `h` lies inside the vector arena.
    pub open spec fn vec_ok(self, h: VecHandle) -> bool {
        h.offset + h.length <= self.vector_data.len()
    }

    /// Entry `i` of the string list stays inside the string data.
    pub open spec fn str_entry_ok(self, i: int) -> bool {
        self.string_list[i].offset + self.string_list[i].length <= self.string_data.len()
    }

    /// The string arena is well formed: handle zero names the empty string
    /// at offset zero, and — because interning deduplicates — no other
    /// handle names an empty string.
    pub open spec fn strings_ok(self) -> bool {
        &&& self.string_list.len() >= 1
        &&& self.string_list[0] == (StrHandle { offset: 0, length: 0 })
        &&& forall|i: int| 0 <= i < self.string_list.len() ==> self.str_entry_ok(i)
        &&& forall|i: int|
            1 <= i < self.string_list.len() ==> (#[trigger] self.string_list[i]).length > 0
    }

    /// A vector handle whose elements are string handles.
    pub open spec fn strs_vec_ok(self, h: VecHandle) -> bool {
        &&& self.vec_ok(h)
        &&& forall|j: int| 0 <= j < self.vecv(h).len() ==> self.str_ok(#[trigger] self.vecv(h)[j])
    }

    /// A vector handle whose elements are tag indexes.
    pub open spec fn tags_vec_ok(self, h: VecHandle) -> bool {
        &&& self.vec_ok(h)
        &&& forall|j: int| 0 <= j < self.vecv(h).len() ==> #[trigger] self.vecv(h)[j] < self.tags.len()
    }

    /// A vector handle whose elements are term indexes.
    pub open spec fn terms_vec_ok(self, h: VecHandle) -> bool {
        &&& self.vec_ok(h)
        &&& forall|j: int| 0 <= j < self.vecv(h).len() ==> #[trigger] self.vecv(h)[j] < self.terms.len()
    }

    pub open spec fn tag_ok(self, t: TagRaw) -> bool {
        self.str_ok(t.name) && self.str_ok(t.category) && self.str_ok(t.notes)
    }

    pub open spec fn tags_ok(self) -> bool {
        forall|i: int| 0 <= i < self.tags.len() ==> self.tag_ok(#[trigger] self.tags[i])
    }

    pub open spec fn term_ok(self, t: TermRaw) -> bool {
        &&& self.str_ok(t.expression)
        &&& t.expression != 0
        &&& self.str_ok(t.reading)
        &&& self.str_ok(t.search_key)
        &&& self.str_ok(t.source)
        &&& self.strs_vec_ok(t.glossary)
        &&& self.tags_vec_ok(t.rules)
        &&& self.tags_vec_ok(t.term_tags)
        &&& self.tags_vec_ok(t.definition_tags)
    }

    pub open spec fn terms_ok(self) -> bool {
        forall|i: int| 0 <= i < self.terms.len() ==> self.term_ok(#[trigger] self.terms[i])
    }

    pub open spec fn kanji_rec_ok(self, k: KanjiRaw) -> bool {
        &&& self.str_ok(k.source)
        &&& self.strs_vec_ok(k.meanings)
        &&& self.strs_vec_ok(k.onyomi)
        &&& self.strs_vec_ok(k.kunyomi)
        &&& self.tags_vec_ok(k.tags)
        &&& self.vec_ok(k.stats)
        &&& self.vecv(k.stats).len() % 2 == 0
        &&& forall|j: int|
            0 <= j < self.vecv(k.stats).len() && j % 2 == 0 ==> #[trigger] self.vecv(k.stats)[j]
                < self.tags.len()
        &&& forall|j: int|
            0 <= j < self.vecv(k.stats).len() && j % 2 == 1 ==> self.str_ok(
                #[trigger] self.vecv(k.stats)[j],
            )
    }

    pub open spec fn kanji_ok(self) -> bool {
        forall|i: int| 0 <= i < self.kanji.len() ==> self.kanji_rec_ok(#[trigger] self.kanji[i])
    }

    /// Relevance order: term `a` may stand before term `b`.
    pub open spec fn rank_ge(a: TermRaw, b: TermRaw) -> bool {
        a.frequency > b.frequency || (a.frequency == b.frequency && a.score as i32 >= b.score as i32)
    }

    /// Terms are sorted by frequency descending, tiebroken by score
    /// descending.
    pub open spec fn terms_sorted(self) -> bool {
        forall|i: int, j: int|
            #![trigger self.terms[i], self.terms[j]]
            0 <= i <= j < self.terms.len() ==> Self::rank_ge(self.terms[i], self.terms[j])
    }

    /// Kanji are sorted by frequency descending.
    pub open spec fn kanji_sorted(self) -> bool {
        forall|i: int, j: int|
            #![trigger self.kanji[i], self.kanji[j]]
            0 <= i <= j < self.kanji.len() ==> self.kanji[i].frequency >= self.kanji[j].frequency
    }

    pub open spec fn row_ok(self, r: TermIndex) -> bool {
        self.str_ok(r.key) && r.term < self.terms.len()
    }

    pub open spec fn prefix_rows_ok(self) -> bool {
        forall|i: int|
            0 <= i < self.index_prefix_jp.len() ==> self.row_ok(#[trigger] self.index_prefix_jp[i])
    }

    pub open spec fn suffix_rows_ok(self) -> bool {
        forall|i: int|
            0 <= i < self.index_suffix_jp.len() ==> self.row_ok(#[trigger] self.index_suffix_jp[i])
    }

    /// The prefix index is sorted ascending by the bytes of the referenced
    /// string.
    pub open spec fn prefix_sorted(self) -> bool {
        forall|i: int, j: int|
            #![trigger self.index_prefix_jp[i], self.index_prefix_jp[j]]
            0 <= i <= j < self.index_prefix_jp.len() ==> lex_le(
                self.strv(self.index_prefix_jp[i].key),
                self.strv(self.index_prefix_jp[j].key),
            )
    }

    /// The suffix index is sorted ascending by the bytes of the stored
    /// (already reversed) string.
    pub open spec fn suffix_sorted(self) -> bool {
        forall|i: int, j: int|
            #![trigger self.index_suffix_jp[i], self.index_suffix_jp[j]]
            0 <= i <= j < self.index_suffix_jp.len() ==> lex_le(
                self.strv(self.index_suffix_jp[i].key),
                self.strv(self.index_suffix_jp[j].key),
            )
    }

    /// `h` is one of the key handles under which term `t` is indexed: the
    /// expression always, the reading and the search key when they are not
    /// the empty-string handle.
    pub open spec fn term_key_handle(t: TermRaw, h: u32) -> bool {
        ||| h == t.expression
        ||| (t.reading != 0 && h == t.reading)
        ||| (t.search_key != 0 && h == t.search_key)
    }

    /// Every prefix row carries a key handle of its term.
    pub open spec fn prefix_sound(self) -> bool {
        forall|i: int|
            0 <= i < self.index_prefix_jp.len() ==> Self::term_key_handle(
                self.terms[(#[trigger] self.index_prefix_jp[i]).term as int],
                self.index_prefix_jp[i].key,
            )
    }

    pub open spec fn has_prefix_row(self, key: u32, t: int) -> bool {
        exists|j: int|
            0 <= j < self.index_prefix_jp.len() && #[trigger] self.index_prefix_jp[j]
                == (TermIndex { key, term: t as u32 })
    }

    /// Every term is reachable through each of its key handles.
    pub open spec fn prefix_complete(self) -> bool {
        forall|t: int|
            0 <= t < self.terms.len() ==> {
                let rec = #[trigger] self.terms[t];
                &&& self.has_prefix_row(rec.expression, t)
                &&& (rec.reading != 0 ==> self.has_prefix_row(rec.reading, t))
                &&& (rec.search_key != 0 ==> self.has_prefix_row(rec.search_key, t))
            }
    }

    /// Every suffix row stores the grapheme reversal of a key of its term.
    pub open spec fn suffix_sound(self) -> bool {
        forall|i: int|
            0 <= i < self.index_suffix_jp.len() ==> {
                let row = #[trigger] self.index_suffix_jp[i];
                let rec = self.terms[row.term as int];
                ||| self.strv(row.key) == grev(self.strv(rec.expression))
                ||| (rec.reading != 0 && self.strv(row.key) == grev(self.strv(rec.reading)))
                ||| (rec.search_key != 0 && self.strv(row.key) == grev(self.strv(rec.search_key)))
            }
    }

    pub open spec fn has_suffix_row(self, s: Seq<u8>, t: int) -> bool {
        exists|j: int|
            0 <= j < self.index_suffix_jp.len() && (#[trigger] self.index_suffix_jp[j]).term
                == t as u32 && self.strv(self.index_suffix_jp[j].key) == s
    }

    /// Every term is reachable through the reversal of each of its keys.
    pub open spec fn suffix_complete(self) -> bool {
        forall|t: int|
            0 <= t < self.terms.len() ==> {
                let rec = #[trigger] self.terms[t];
                &&& self.has_suffix_row(grev(self.strv(rec.expression)), t)
                &&& (rec.reading != 0 ==> self.has_suffix_row(grev(self.strv(rec.reading)), t))
                &&& (rec.search_key != 0 ==> self.has_suffix_row(grev(self.strv(rec.search_key)), t))
            }
    }

    /// Character buckets hold strictly ascending term indexes and the rows
    /// are keyed by strictly ascending code points.
    pub open spec fn chars_ok(self) -> bool {
        &&& forall|i: int|
            0 <= i < self.index_chars_jp.len() ==> self.terms_vec_ok(
                (#[trigger] self.index_chars_jp[i]).indexes,
            )
        &&& forall|i: int, a: int, b: int|
            #![trigger self.vecv(self.index_chars_jp[i].indexes)[a], self.vecv(self.index_chars_jp[i].indexes)[b]]
            0 <= i < self.index_chars_jp.len() && 0 <= a < b < self.vecv(
                self.index_chars_jp[i].indexes,
            ).len() ==> self.vecv(self.index_chars_jp[i].indexes)[a] < self.vecv(
                self.index_chars_jp[i].indexes,
            )[b]
        &&& forall|i: int, j: int|
            #![trigger self.index_chars_jp[i], self.index_chars_jp[j]]
            0 <= i < j < self.index_chars_jp.len() ==> self.index_chars_jp[i].character
                < self.index_chars_jp[j].character
    }

    /// Every section count and every arena size fits the 32-bit fields of
    /// the on-disk format.
    pub open spec fn fits(self) -> bool {
        &&& self.tags.len() <= u32::MAX
        &&& self.terms.len() <= u32::MAX
        &&& self.kanji.len() <= u32::MAX
        &&& self.index_prefix_jp.len() <= u32::MAX
        &&& self.index_suffix_jp.len() <= u32::MAX
        &&& self.index_chars_jp.len() <= u32::MAX
        &&& self.vector_data.len() <= u32::MAX
        &&& self.string_list.len() <= u32::MAX
        &&& self.string_data.len() <= u32::MAX
    }

    /// All structural invariants of a built database.
    pub open spec fn valid(self) -> bool {
        &&& self.strings_ok()
        &&& self.tags_ok()
        &&& self.terms_ok()
        &&& self.kanji_ok()
        &&& self.terms_sorted()
        &&& self.kanji_sorted()
        &&& self.prefix_rows_ok()
        &&& self.suffix_rows_ok()
        &&& self.prefix_sorted()
        &&& self.suffix_sorted()
        &&& self.prefix_sound()
        &&& self.prefix_complete()
        &&& self.suffix_sound()
        &&& self.suffix_complete()
        &&& self.chars_ok()
        &&& self.fits()
    }
}

/// Root structure for the Japanese database, a bundle of typed sections.
///
/// [`DB::load`] parses a binary blob into one; [`crate::writer::Writer`]
/// produces such blobs.
pub struct DB {
    pub(crate) tags: Vec<TagRaw>,
    pub(crate) terms: Vec<TermRaw>,
    pub(crate) kanji: Vec<KanjiRaw>,
    pub(crate) index_prefix_jp: Vec<TermIndex>,
    pub(crate) index_suffix_jp: Vec<TermIndex>,
    pub(crate) index_chars_jp: Vec<CharIndex>,
    pub(crate) vector_data: Vec<u32>,
    pub(crate) string_list: Vec<StrHandle>,
    pub(crate) string_data: Vec<u8>,
}

impl View for DB {
    type V = DbModel;

    closed spec fn view(&self) -> DbModel {
        DbModel {
            tags: self.tags@,
            terms: self.terms@,
            kanji: self.kanji@,
            index_prefix_jp: self.index_prefix_jp@,
            index_suffix_jp: self.index_suffix_jp@,
            index_chars_jp: self.index_chars_jp@,
            vector_data: self.vector_data@,
            string_list: self.string_list@,
            string_data: self.string_data@,
        }
    }
}

impl DB {
    /// The bytes of the string named by handle `index`.
    pub fn get_str(&self, index: u32) -> (r: Vec<u8>)
        requires
            self@.strings_ok(),
            self@.str_ok(index),
        ensures
            r@ == self@.strv(index),
    {
        let entry = self.string_list[index as usize];
        assert(self@.str_entry_ok(index as int));
        let data_len = self.string_data.len();
        let (sta, end) = entry.range();
        let mut out: Vec<u8> = Vec::new();
        let mut i: usize = sta;
        while i < end
            invariant
                sta <= i <= end <= self.string_data@.len(),
                out@ =~= self.string_data@.subrange(sta as int, i as int),
            decreases end - i,
        {
            out.push(self.string_data[i]);
            proof {
                assert(out@ =~= self.string_data@.subrange(sta as int, i + 1));
            }
            i = i + 1;
        }
        proof {
            assert(out@ =~= self@.strv(index));
        }
        out
    }

    /// The elements of the list named by `handle`; the `{0, 0}` handle gives
    /// the empty list.
    pub fn get_list(&self, handle: VecHandle) -> (r: Vec<u32>)
        requires
            self@.vec_ok(handle),
        ensures
            r@ == self@.vecv(handle),
            handle.length == 0 ==> r@.len() == 0,
    {
        let data_len = self.vector_data.len();
        let (sta, end) = handle.range();
        let mut out: Vec<u32> = Vec::new();
        let mut i: usize = sta;
        while i < end
            invariant
                sta <= i <= end <= self.vector_data@.len(),
                out@ =~= self.vector_data@.subrange(sta as int, i as int),
            decreases end - i,
        {
            out.push(self.vector_data[i]);
            proof {
                assert(out@ =~= self.vector_data@.subrange(sta as int, i + 1));
            }
            i = i + 1;
        }
        proof {
            assert(out@ =~= self@.vecv(handle));
        }
        out
    }

    pub(crate) fn assemble(
        tags: Vec<TagRaw>,
        terms: Vec<TermRaw>,
        kanji: Vec<KanjiRaw>,
        index_prefix_jp: Vec<TermIndex>,
        index_suffix_jp: Vec<TermIndex>,
        index_chars_jp: Vec<CharIndex>,
        vector_data: Vec<u32>,
        string_list: Vec<StrHandle>,
        string_data: Vec<u8>,
    ) -> (d: DB)
        ensures
            d@ == (DbModel {
                tags: tags@,
                terms: terms@,
                kanji: kanji@,
                index_prefix_jp: index_prefix_jp@,
                index_suffix_jp: index_suffix_jp@,
                index_chars_jp: index_chars_jp@,
                vector_data: vector_data@,
                string_list: string_list@,
                string_data: string_data@,
            }),
    {
        DB {
            tags,
            terms,
            kanji,
            index_prefix_jp,
            index_suffix_jp,
            index_chars_jp,
            vector_data,
            string_list,
            string_data,
        }
    }

    pub(crate) fn vector_at(&self, i: usize) -> (r: u32)
        requires
            i < self@.vector_data.len(),
        ensures
            r == self@.vector_data[i as int],
    {
        self.vector_data[i]
    }

    pub(crate) fn string_data_at(&self, i: usize) -> (r: u8)
        requires
            i < self@.string_data.len(),
        ensures
            r == self@.string_data[i as int],
    {
        self.string_data[i]
    }

    pub(crate) fn tag_at(&self, i: usize) -> (r: TagRaw)
        requires
            i < self@.tags.len(),
        ensures
            r == self@.tags[i as int],
    {
        self.tags[i]
    }

    pub(crate) fn term_at(&self, i: usize) -> (r: TermRaw)
        requires
            i < self@.terms.len(),
        ensures
            r == self@.terms[i as int],
    {
        self.terms[i]
    }

    pub(crate) fn kanji_at(&self, i: usize) -> (r: KanjiRaw)
        requires
            i < self@.kanji.len(),
        ensures
            r == self@.kanji[i as int],
    {
        self.kanji[i]
    }

    pub(crate) fn prefix_at(&self, i: usize) -> (r: TermIndex)
        requires
            i < self@.index_prefix_jp.len(),
        ensures
            r == self@.index_prefix_jp[i as int],
    {
        self.index_prefix_jp[i]
    }

    pub(crate) fn suffix_at(&self, i: usize) -> (r: TermIndex)
        requires
            i < self@.index_suffix_jp.len(),
        ensures
            r == self@.index_suffix_jp[i as int],
    {
        self.index_suffix_jp[i]
    }

    pub(crate) fn chars_at(&self, i: usize) -> (r: CharIndex)
        requires
            i < self@.index_chars_jp.len(),
        ensures
            r == self@.index_chars_jp[i as int],
    {
        self.index_chars_jp[i]
    }

    pub(crate) fn strh_at(&self, i: usize) -> (r: StrHandle)
        requires
            i < self@.string_list.len(),
        ensures
            r == self@.string_list[i as int],
    {
        self.string_list[i]
    }

    pub(crate) fn prefix_len(&self) -> (r: usize)
        ensures
            r == self@.index_prefix_jp.len(),
    {
        self.index_prefix_jp.len()
    }

    pub(crate) fn suffix_len(&self) -> (r: usize)
        ensures
            r == self@.index_suffix_jp.len(),
    {
        self.index_suffix_jp.len()
    }

    pub(crate) fn chars_len(&self) -> (r: usize)
        ensures
            r == self@.index_chars_jp.len(),
    {
        self.index_chars_jp.len()
    }

    pub(crate) fn vector_len(&self) -> (r: usize)
        ensures
            r == self@.vector_data.len(),
    {
        self.vector_data.len()
    }

    pub(crate) fn strings_len(&self) -> (r: usize)
        ensures
            r == self@.string_list.len(),
    {
        self.string_list.len()
    }

    pub(crate) fn string_data_len(&self) -> (r: usize)
        ensures
            r == self@.string_data.len(),
    {
        self.string_data.len()
    }

    /// How many terms the database holds.
    pub fn terms_len(&self) -> (r: usize)
        ensures
            r == self@.terms.len(),
    {
        self.terms.len()
    }

    /// How many tags the database holds.
    pub fn tags_len(&self) -> (r: usize)
        ensures
            r == self@.tags.len(),
    {
        self.tags.len()
    }

    /// How many kanji the database holds.
    pub fn kanji_len(&self) -> (r: usize)
        ensures
            r == self@.kanji.len(),
    {
        self.kanji.len()
    }
}

/// In a well-formed arena a handle names the empty string exactly when it
/// is handle zero.
pub proof fn lemma_empty_iff_handle_zero(m: DbModel, h: u32)
    requires
        m.strings_ok(),
        m.str_ok(h),
    ensures
        (m.strv(h).len() == 0) <==> (h == 0),
{
    assert(m.str_entry_ok(h as int));
    assert(m.strv(h).len() == m.string_list[h as int].length);
}

impl DB {
    /// Loads a database from a binary blob.
    ///
    /// On success the returned database encodes back to exactly `bytes`;
    /// and whenever `bytes` is the encoding of some model at all, the load
    /// succeeds and returns precisely that model, so a blob emitted by
    /// [`crate::writer::Writer::write`] always loads back to its (valid)
    /// model.
    pub fn load(bytes: &Vec<u8>) -> (r: Result<DB, DbError>)
        ensures
            r matches Ok(d) ==> bytes@ == crate::codec::encode_model(d@) && d@.fits(),
            forall|m: DbModel| #[trigger]
                crate::codec::good(bytes@, m) ==> (r matches Ok(d) && d@ == m),
            r matches Err(e) ==> e is MalformedBlob,
    {
        crate::codec::parse_db(bytes)
    }

    /// Walks the structure, verifying every invariant of
    /// [`DbModel::valid`]: section counts within 32 bits, every stored
    /// handle resolving, relevance order of terms and kanji, byte order of
    /// both key indexes, the indexes reaching exactly the key handles of
    /// their terms (with suffix keys the stored reversals), and the
    /// character index ascending and in bounds.  Returns a violation,
    /// locating its section (and, for the per-record walks, its row).
    #[verifier::loop_isolation(false)]
    #[verifier::rlimit(100)]
    pub fn check(&self) -> (r: Result<(), DbError>)
        ensures
            r is Ok <==> self@.valid(),
            r matches Err(e) ==> e matches DbError::MalformedBlob { section, row },
    {
        if !self.check_counts() {
            return Err(DbError::MalformedBlob { section: Section::VectorData, row: 0 });
        }
        let m_tags = self.tags.len();
        let m_terms = self.terms.len();
        let m_strings = self.string_list.len();
        let m_vec = self.vector_data.len();
        let m_data = self.string_data.len();

        if m_strings == 0 {
            return Err(DbError::MalformedBlob { section: Section::StringList, row: 0 });
        }
        let first = self.string_list[0];
        if !(first.offset == 0 && first.length == 0) {
            return Err(DbError::MalformedBlob { section: Section::StringList, row: 0 });
        }
        let mut i: usize = 0;
        while i < m_strings
            invariant
                0 <= i <= m_strings,
                forall|q: int| 0 <= q < i ==> self@.str_entry_ok(q),
                forall|q: int|
                    1 <= q < i ==> (#[trigger] self@.string_list[q]).length > 0,
            decreases m_strings - i,
        {
            let e = self.string_list[i];
            if !((e.offset as usize) <= m_data && (e.length as usize) <= m_data - (e.offset
                as usize)) {
                proof {
                    assert(!self@.str_entry_ok(i as int));
                }
                return Err(DbError::MalformedBlob { section: Section::StringList, row: i });
            }
            if i >= 1 && e.length == 0 {
                return Err(DbError::MalformedBlob { section: Section::StringList, row: i });
            }
            i = i + 1;
        }
        proof {
            assert(self@.strings_ok());
        }

        let mut i: usize = 0;
        while i < m_tags
            invariant
                0 <= i <= m_tags,
                forall|q: int| 0 <= q < i ==> self@.tag_ok(#[trigger] self@.tags[q]),
            decreases m_tags - i,
        {
            let t = self.tags[i];
            if !((t.name as usize) < m_strings && (t.category as usize) < m_strings
                && (t.notes as usize) < m_strings) {
                return Err(DbError::MalformedBlob { section: Section::Tags, row: i });
            }
            i = i + 1;
        }
        proof {
            assert(self@.tags_ok());
        }

        let mut i: usize = 0;
        while i < m_terms
            invariant
                0 <= i <= m_terms,
                forall|q: int| 0 <= q < i ==> self@.term_ok(#[trigger] self@.terms[q]),
            decreases m_terms - i,
        {
            let t = self.terms[i];
            if !(t.expression != 0 && (t.expression as usize) < m_strings
                && (t.reading as usize) < m_strings && (t.search_key as usize) < m_strings
                && (t.source as usize) < m_strings) {
                proof {
                    assert(!self@.term_ok(self@.terms[i as int]));
                }
                return Err(DbError::MalformedBlob { section: Section::Terms, row: i });
            }
            if !self.check_strs_vec(t.glossary) {
                proof {
                    assert(!self@.term_ok(self@.terms[i as int]));
                }
                return Err(DbError::MalformedBlob { section: Section::Terms, row: i });
            }
            if !self.check_tags_vec(t.rules) {
                proof {
                    assert(!self@.term_ok(self@.terms[i as int]));
                }
                return Err(DbError::MalformedBlob { section: Section::Terms, row: i });
            }
            if !self.check_tags_vec(t.term_tags) {
                proof {
                    assert(!self@.term_ok(self@.terms[i as int]));
                }
                return Err(DbError::MalformedBlob { section: Section::Terms, row: i });
            }
            if !self.check_tags_vec(t.definition_tags) {
                proof {
                    assert(!self@.term_ok(self@.terms[i as int]));
                }
                return Err(DbError::MalformedBlob { section: Section::Terms, row: i });
            }
            i = i + 1;
        }
        proof {
            assert(self@.terms_ok());
        }

        let m_kanji = self.kanji.len();
        let mut i: usize = 0;
        while i < m_kanji
            invariant
                0 <= i <= m_kanji,
                forall|q: int| 0 <= q < i ==> self@.kanji_rec_ok(#[trigger] self@.kanji[q]),
            decreases m_kanji - i,
        {
            let k = self.kanji[i];
            if !((k.source as usize) < m_strings) {
                proof {
                    assert(!self@.kanji_rec_ok(self@.kanji[i as int]));
                }
                return Err(DbError::MalformedBlob { section: Section::Kanji, row: i });
            }
            if !self.check_strs_vec(k.meanings) {
                proof {
                    assert(!self@.kanji_rec_ok(self@.kanji[i as int]));
                }
                return Err(DbError::MalformedBlob { section: Section::Kanji, row: i });
            }
            if !self.check_strs_vec(k.onyomi) {
                proof {
                    assert(!self@.kanji_rec_ok(self@.kanji[i as int]));
                }
                return Err(DbError::MalformedBlob { section: Section::Kanji, row: i });
            }
            if !self.check_strs_vec(k.kunyomi) {
                proof {
                    assert(!self@.kanji_rec_ok(self@.kanji[i as int]));
                }
                return Err(DbError::MalformedBlob { section: Section::Kanji, row: i });
            }
            if !self.check_tags_vec(k.tags) {
                proof {
                    assert(!self@.kanji_rec_ok(self@.kanji[i as int]));
                }
                return Err(DbError::MalformedBlob { section: Section::Kanji, row: i });
            }
            if !self.check_stats_vec(k.stats) {
                proof {
                    assert(!self@.kanji_rec_ok(self@.kanji[i as int]));
                }
                return Err(DbError::MalformedBlob { section: Section::Kanji, row: i });
            }
            i = i + 1;
        }
        proof {
            assert(self@.kanji_ok());
        }

        let m_pre = self.index_prefix_jp.len();
        let mut i: usize = 0;
        while i < m_pre
            invariant
                0 <= i <= m_pre,
                forall|q: int| 0 <= q < i ==> self@.row_ok(#[trigger] self@.index_prefix_jp[q]),
            decreases m_pre - i,
        {
            let row = self.index_prefix_jp[i];
            if !((row.key as usize) < m_strings && (row.term as usize) < m_terms) {
                proof {
                    assert(!self@.row_ok(self@.index_prefix_jp[i as int]));
                }
                return Err(DbError::MalformedBlob { section: Section::IndexPrefix, row: i });
            }
            i = i + 1;
        }
        let m_suf = self.index_suffix_jp.len();
        let mut i: usize = 0;
        while i < m_suf
            invariant
                0 <= i <= m_suf,
                forall|q: int| 0 <= q < i ==> self@.row_ok(#[trigger] self@.index_suffix_jp[q]),
            decreases m_suf - i,
        {
            let row = self.index_suffix_jp[i];
            if !((row.key as usize) < m_strings && (row.term as usize) < m_terms) {
                proof {
                    assert(!self@.row_ok(self@.index_suffix_jp[i as int]));
                }
                return Err(DbError::MalformedBlob { section: Section::IndexSuffix, row: i });
            }
            i = i + 1;
        }
        if !self.check_terms_sorted() {
            return Err(DbError::MalformedBlob { section: Section::Terms, row: 0 });
        }
        if !self.check_kanji_sorted() {
            return Err(DbError::MalformedBlob { section: Section::Kanji, row: 0 });
        }
        if !self.check_rows_sorted(false) {
            return Err(DbError::MalformedBlob { section: Section::IndexPrefix, row: 0 });
        }
        if !self.check_rows_sorted(true) {
            return Err(DbError::MalformedBlob { section: Section::IndexSuffix, row: 0 });
        }
        if !self.check_prefix_sound() {
            return Err(DbError::MalformedBlob { section: Section::IndexPrefix, row: 0 });
        }
        if !self.check_prefix_complete() {
            return Err(DbError::MalformedBlob { section: Section::IndexPrefix, row: 0 });
        }
        if !self.check_suffix_sound() {
            return Err(DbError::MalformedBlob { section: Section::IndexSuffix, row: 0 });
        }
        if !self.check_suffix_complete() {
            return Err(DbError::MalformedBlob { section: Section::IndexSuffix, row: 0 });
        }
        if !self.check_chars() {
            return Err(DbError::MalformedBlob { section: Section::IndexChars, row: 0 });
        }
        Ok(())
    }

    /// Whether `h` is a valid list of string handles.
    #[verifier::loop_isolation(false)]
    fn check_strs_vec(&self, h: VecHandle) -> (r: bool)
        ensures
            r == self@.strs_vec_ok(h),
    {
        let m_vec = self.vector_data.len();
        if !((h.offset as usize) <= m_vec && (h.length as usize) <= m_vec - (h.offset as usize)) {
            return false;
        }
        let sta = h.offset as usize;
        let end = sta + h.length as usize;
        let m_strings = self.string_list.len();
        let mut j: usize = sta;
        while j < end
            invariant
                sta <= j <= end,
                end <= self@.vector_data.len(),
                end - sta == h.length,
                forall|q: int|
                    0 <= q < j - sta ==> self@.str_ok(#[trigger] self@.vecv(h)[q]),
            decreases end - j,
        {
            if !((self.vector_data[j] as usize) < m_strings) {
                proof {
                    assert(self@.vecv(h)[j - sta] == self@.vector_data[j as int]);
                }
                return false;
            }
            proof {
                assert(self@.vecv(h)[j - sta] == self@.vector_data[j as int]);
            }
            j = j + 1;
        }
        true
    }

    /// Whether `h` is a valid list of tag indexes.
    #[verifier::loop_isolation(false)]
    fn check_tags_vec(&self, h: VecHandle) -> (r: bool)
        ensures
            r == self@.tags_vec_ok(h),
    {
        let m_vec = self.vector_data.len();
        if !((h.offset as usize) <= m_vec && (h.length as usize) <= m_vec - (h.offset as usize)) {
            return false;
        }
        let sta = h.offset as usize;
        let end = sta + h.length as usize;
        let m_tags = self.tags.len();
        let mut j: usize = sta;
        while j < end
            invariant
                sta <= j <= end,
                end <= self@.vector_data.len(),
                end - sta == h.length,
                forall|q: int|
                    0 <= q < j - sta ==> #[trigger] self@.vecv(h)[q] < self@.tags.len(),
            decreases end - j,
        {
            if !((self.vector_data[j] as usize) < m_tags) {
                proof {
                    assert(self@.vecv(h)[j - sta] == self@.vector_data[j as int]);
                }
                return false;
            }
            proof {
                assert(self@.vecv(h)[j - sta] == self@.vector_data[j as int]);
            }
            j = j + 1;
        }
        true
    }

    /// Whether `h` is a valid list of kanji stat pairs: even length, tag
    /// indexes at even positions, string handles at odd ones.
    #[verifier::loop_isolation(false)]
    fn check_stats_vec(&self, h: VecHandle) -> (r: bool)
        ensures
            r == (self@.vec_ok(h) && self@.vecv(h).len() % 2 == 0 && (forall|j: int|
                0 <= j < self@.vecv(h).len() && j % 2 == 0 ==> #[trigger] self@.vecv(h)[j]
                    < self@.tags.len()) && (forall|j: int|
                0 <= j < self@.vecv(h).len() && j % 2 == 1 ==> self@.str_ok(
                    #[trigger] self@.vecv(h)[j],
                ))),
    {
        let m_vec = self.vector_data.len();
        if !((h.offset as usize) <= m_vec && (h.length as usize) <= m_vec - (h.offset as usize)) {
            return false;
        }
        if h.length % 2 != 0 {
            return false;
        }
        let sta = h.offset as usize;
        let end = sta + h.length as usize;
        let m_tags = self.tags.len();
        let m_strings = self.string_list.len();
        let mut j: usize = sta;
        while j < end
            invariant
                sta <= j <= end,
                end <= self@.vector_data.len(),
                end - sta == h.length,
                (j - sta) % 2 == 0,
                forall|q: int|
                    0 <= q < j - sta && q % 2 == 0 ==> #[trigger] self@.vecv(h)[q]
                        < self@.tags.len(),
                forall|q: int|
                    0 <= q < j - sta && q % 2 == 1 ==> self@.str_ok(#[trigger] self@.vecv(h)[q]),
            decreases end - j,
        {
            let tagv = self.vector_data[j];
            let strv = self.vector_data[j + 1];
            proof {
                assert(self@.vecv(h)[j - sta] == self@.vector_data[j as int]);
                assert(self@.vecv(h)[j + 1 - sta] == self@.vector_data[j + 1]);
            }
            if !((tagv as usize) < m_tags) {
                return false;
            }
            if !((strv as usize) < m_strings) {
                return false;
            }
            j = j + 2;
        }
        true
    }
}

/// Adjacent relevance order extends to every pair.
proof fn lemma_terms_pairwise(s: Seq<TermRaw>, i: int, j: int)
    requires
        forall|k: int| 0 <= k && k + 1 < s.len() ==> DbModel::rank_ge(#[trigger] s[k], s[k + 1]),
        0 <= i <= j < s.len(),
    ensures
        DbModel::rank_ge(s[i], s[j]),
    decreases j - i,
{
    if i < j {
        lemma_terms_pairwise(s, i, j - 1);
        assert(DbModel::rank_ge(s[j - 1], s[j]));
    }
}

/// Adjacent frequency order extends to every pair.
proof fn lemma_kanji_pairwise(s: Seq<KanjiRaw>, i: int, j: int)
    requires
        forall|k: int|
            0 <= k && k + 1 < s.len() ==> (#[trigger] s[k]).frequency >= s[k + 1].frequency,
        0 <= i <= j < s.len(),
    ensures
        s[i].frequency >= s[j].frequency,
    decreases j - i,
{
    if i < j {
        lemma_kanji_pairwise(s, i, j - 1);
    }
}

/// Adjacent key order extends to every pair of index rows.
proof fn lemma_rows_pairwise(m: DbModel, s: Seq<TermIndex>, i: int, j: int)
    requires
        forall|k: int|
            0 <= k && k + 1 < s.len() ==> lex_le(
                m.strv((#[trigger] s[k]).key),
                m.strv(s[k + 1].key),
            ),
        0 <= i <= j < s.len(),
    ensures
        lex_le(m.strv(s[i].key), m.strv(s[j].key)),
    decreases j - i,
{
    if i == j {
        crate::order::lemma_lex_le_total(m.strv(s[i].key), m.strv(s[i].key));
    } else {
        lemma_rows_pairwise(m, s, i, j - 1);
        lemma_lex_le_trans(m.strv(s[i].key), m.strv(s[j - 1].key), m.strv(s[j].key));
    }
}

/// Adjacent strict order on a word sequence extends to every pair.
proof fn lemma_u32_pairwise(s: Seq<u32>, i: int, j: int)
    requires
        forall|k: int| 0 <= k && k + 1 < s.len() ==> #[trigger] s[k] < s[k + 1],
        0 <= i < j < s.len(),
    ensures
        s[i] < s[j],
    decreases j - i,
{
    if i + 1 < j {
        lemma_u32_pairwise(s, i, j - 1);
    }
}

/// Adjacent strict order on bucket keys extends to every pair.
proof fn lemma_chars_pairwise(s: Seq<CharIndex>, i: int, j: int)
    requires
        forall|k: int|
            0 <= k && k + 1 < s.len() ==> (#[trigger] s[k]).character < s[k + 1].character,
        0 <= i < j < s.len(),
    ensures
        s[i].character < s[j].character,
    decreases j - i,
{
    if i + 1 < j {
        lemma_chars_pairwise(s, i, j - 1);
    }
}

impl DB {
    /// Whether every section count and arena size fits the 32-bit fields.
    fn check_counts(&self) -> (r: bool)
        ensures
            r == self@.fits(),
    {
        let cap = u32::MAX as usize;
        self.tags.len() <= cap && self.terms.len() <= cap && self.kanji.len() <= cap
            && self.index_prefix_jp.len() <= cap && self.index_suffix_jp.len() <= cap
            && self.index_chars_jp.len() <= cap && self.vector_data.len() <= cap
            && self.string_list.len() <= cap && self.string_data.len() <= cap
    }

    /// Whether the term table is sorted by relevance.
    #[verifier::loop_isolation(false)]
    fn check_terms_sorted(&self) -> (r: bool)
        ensures
            r == self@.terms_sorted(),
    {
        let n = self.terms.len();
        let mut i: usize = 1;
        while i < n
            invariant
                1 <= i <= n || n == 0,
                n == self@.terms.len(),
                forall|k: int|
                    0 <= k && k + 1 < i ==> DbModel::rank_ge(
                        #[trigger] self@.terms[k],
                        self@.terms[k + 1],
                    ),
            decreases n - i,
        {
            let a = self.terms[i - 1];
            let b = self.terms[i];
            let ok = a.frequency > b.frequency || (a.frequency == b.frequency
                && crate::raw::RawInt32::from_bits(a.score).value >= crate::raw::RawInt32::from_bits(
                b.score,
            ).value);
            if !ok {
                proof {
                    assert(!DbModel::rank_ge(self@.terms[i - 1], self@.terms[i as int]));
                }
                return false;
            }
            i = i + 1;
        }
        proof {
            assert forall|a: int, b: int|
                0 <= a <= b < self@.terms.len() implies DbModel::rank_ge(
                #[trigger] self@.terms[a],
                #[trigger] self@.terms[b],
            ) by {
                lemma_terms_pairwise(self@.terms, a, b);
            }
        }
        true
    }

    /// Whether the kanji table is sorted by frequency.
    #[verifier::loop_isolation(false)]
    fn check_kanji_sorted(&self) -> (r: bool)
        ensures
            r == self@.kanji_sorted(),
    {
        let n = self.kanji.len();
        let mut i: usize = 1;
        while i < n
            invariant
                1 <= i <= n || n == 0,
                n == self@.kanji.len(),
                forall|k: int|
                    0 <= k && k + 1 < i ==> (#[trigger] self@.kanji[k]).frequency >= self@.kanji[k
                        + 1].frequency,
            decreases n - i,
        {
            if !(self.kanji[i - 1].frequency >= self.kanji[i].frequency) {
                return false;
            }
            i = i + 1;
        }
        proof {
            assert forall|a: int, b: int|
                0 <= a <= b < self@.kanji.len() implies (#[trigger] self@.kanji[a]).frequency
                >= (#[trigger] self@.kanji[b]).frequency by {
                lemma_kanji_pairwise(self@.kanji, a, b);
            }
        }
        true
    }

    /// Whether the chosen key index is sorted by the referenced strings.
    #[verifier::loop_isolation(false)]
    fn check_rows_sorted(&self, suffix: bool) -> (r: bool)
        requires
            self@.strings_ok(),
            !suffix ==> self@.prefix_rows_ok(),
            suffix ==> self@.suffix_rows_ok(),
        ensures
            !suffix ==> r == self@.prefix_sorted(),
            suffix ==> r == self@.suffix_sorted(),
    {
        let ghost rows = self@.rows(suffix);
        let n = if suffix {
            self.index_suffix_jp.len()
        } else {
            self.index_prefix_jp.len()
        };
        let mut i: usize = 1;
        while i < n
            invariant
                1 <= i <= n || n == 0,
                n == rows.len(),
                forall|k: int|
                    0 <= k && k + 1 < i ==> lex_le(
                        self@.strv((#[trigger] rows[k]).key),
                        self@.strv(rows[k + 1].key),
                    ),
            decreases n - i,
        {
            let a = if suffix {
                self.suffix_at(i - 1)
            } else {
                self.prefix_at(i - 1)
            };
            let b = if suffix {
                self.suffix_at(i)
            } else {
                self.prefix_at(i)
            };
            let sa = self.get_str(a.key);
            let sb = self.get_str(b.key);
            if bytes_cmp(&sa, &sb) > 0 {
                return false;
            }
            i = i + 1;
        }
        proof {
            assert forall|a: int, b: int|
                0 <= a <= b < rows.len() implies lex_le(
                self@.strv((#[trigger] rows[a]).key),
                self@.strv((#[trigger] rows[b]).key),
            ) by {
                lemma_rows_pairwise(self@, rows, a, b);
            }
        }
        true
    }

    /// Whether every prefix row carries a key handle of its term.
    #[verifier::loop_isolation(false)]
    fn check_prefix_sound(&self) -> (r: bool)
        requires
            self@.prefix_rows_ok(),
        ensures
            r == self@.prefix_sound(),
    {
        let n = self.index_prefix_jp.len();
        let mut i: usize = 0;
        while i < n
            invariant
                0 <= i <= n,
                n == self@.index_prefix_jp.len(),
                forall|k: int|
                    0 <= k < i ==> DbModel::term_key_handle(
                        self@.terms[(#[trigger] self@.index_prefix_jp[k]).term as int],
                        self@.index_prefix_jp[k].key,
                    ),
            decreases n - i,
        {
            let row = self.prefix_at(i);
            let rec = self.term_at(row.term as usize);
            let ok = row.key == rec.expression || (rec.reading != 0 && row.key == rec.reading) || (
            rec.search_key != 0 && row.key == rec.search_key);
            if !ok {
                return false;
            }
            i = i + 1;
        }
        true
    }

    /// Whether the prefix index holds the exact row sought.
    #[verifier::loop_isolation(false)]
    fn contains_prefix_row(&self, key: u32, term: u32) -> (r: bool)
        ensures
            r == (exists|j: int|
                0 <= j < self@.index_prefix_jp.len() && #[trigger] self@.index_prefix_jp[j]
                    == (TermIndex { key, term })),
    {
        let n = self.index_prefix_jp.len();
        let mut j: usize = 0;
        let mut found = false;
        while j < n
            invariant
                0 <= j <= n,
                n == self@.index_prefix_jp.len(),
                found == (exists|q: int|
                    0 <= q < j && #[trigger] self@.index_prefix_jp[q] == (TermIndex {
                        key,
                        term,
                    })),
            decreases n - j,
        {
            let row = self.prefix_at(j);
            if row.key == key && row.term == term {
                found = true;
            }
            j = j + 1;
        }
        found
    }

    /// Whether every term is reachable through each of its key handles.
    #[verifier::loop_isolation(false)]
    fn check_prefix_complete(&self) -> (r: bool)
        requires
            self@.fits(),
        ensures
            r == self@.prefix_complete(),
    {
        let n = self.terms.len();
        let mut t: usize = 0;
        while t < n
            invariant
                0 <= t <= n,
                n == self@.terms.len(),
                n <= u32::MAX,
                forall|q: int|
                    0 <= q < t ==> {
                        let rec = #[trigger] self@.terms[q];
                        &&& self@.has_prefix_row(rec.expression, q)
                        &&& (rec.reading != 0 ==> self@.has_prefix_row(rec.reading, q))
                        &&& (rec.search_key != 0 ==> self@.has_prefix_row(rec.search_key, q))
                    },
            decreases n - t,
        {
            let rec = self.term_at(t);
            if !self.contains_prefix_row(rec.expression, t as u32) {
                proof {
                    assert(!self@.has_prefix_row(self@.terms[t as int].expression, t as int));
                }
                return false;
            }
            if rec.reading != 0 && !self.contains_prefix_row(rec.reading, t as u32) {
                proof {
                    assert(!self@.has_prefix_row(self@.terms[t as int].reading, t as int));
                }
                return false;
            }
            if rec.search_key != 0 && !self.contains_prefix_row(rec.search_key, t as u32) {
                proof {
                    assert(!self@.has_prefix_row(self@.terms[t as int].search_key, t as int));
                }
                return false;
            }
            proof {
                assert(self@.has_prefix_row(self@.terms[t as int].expression, t as int));
                if self@.terms[t as int].reading != 0 {
                    assert(self@.has_prefix_row(self@.terms[t as int].reading, t as int));
                }
                if self@.terms[t as int].search_key != 0 {
                    assert(self@.has_prefix_row(self@.terms[t as int].search_key, t as int));
                }
            }
            t = t + 1;
        }
        true
    }

    /// Whether every suffix row stores the reversal of a key of its term.
    #[verifier::loop_isolation(false)]
    fn check_suffix_sound(&self) -> (r: bool)
        requires
            self@.strings_ok(),
            self@.terms_ok(),
            self@.suffix_rows_ok(),
        ensures
            r == self@.suffix_sound(),
    {
        let n = self.index_suffix_jp.len();
        let mut i: usize = 0;
        while i < n
            invariant
                0 <= i <= n,
                n == self@.index_suffix_jp.len(),
                forall|k: int|
                    0 <= k < i ==> {
                        let row = #[trigger] self@.index_suffix_jp[k];
                        let rec = self@.terms[row.term as int];
                        ||| self@.strv(row.key) == grev(self@.strv(rec.expression))
                        ||| (rec.reading != 0 && self@.strv(row.key) == grev(
                            self@.strv(rec.reading),
                        ))
                        ||| (rec.search_key != 0 && self@.strv(row.key) == grev(
                            self@.strv(rec.search_key),
                        ))
                    },
            decreases n - i,
        {
            let row = self.suffix_at(i);
            let rec = self.term_at(row.term as usize);
            let row_str = self.get_str(row.key);
            let e_rev = reverse_graphemes(&self.get_str(rec.expression));
            let mut ok = bytes_eq(&row_str, &e_rev);
            if !ok && rec.reading != 0 {
                let r_rev = reverse_graphemes(&self.get_str(rec.reading));
                ok = bytes_eq(&row_str, &r_rev);
            }
            if !ok && rec.search_key != 0 {
                let s_rev = reverse_graphemes(&self.get_str(rec.search_key));
                ok = bytes_eq(&row_str, &s_rev);
            }
            if !ok {
                return false;
            }
            i = i + 1;
        }
        true
    }

    /// Whether the suffix index holds a row for `term` whose stored key
    /// names exactly the bytes `rev`.
    #[verifier::loop_isolation(false)]
    fn contains_suffix_row(&self, rev: &Vec<u8>, term: u32) -> (r: bool)
        requires
            self@.strings_ok(),
            self@.suffix_rows_ok(),
        ensures
            r == (exists|j: int|
                0 <= j < self@.index_suffix_jp.len() && (#[trigger] self@.index_suffix_jp[j]).term
                    == term && self@.strv(self@.index_suffix_jp[j].key) == rev@),
    {
        let n = self.index_suffix_jp.len();
        let mut j: usize = 0;
        let mut found = false;
        while j < n
            invariant
                0 <= j <= n,
                n == self@.index_suffix_jp.len(),
                found == (exists|q: int|
                    0 <= q < j && (#[trigger] self@.index_suffix_jp[q]).term == term && self@.strv(
                        self@.index_suffix_jp[q].key,
                    ) == rev@),
            decreases n - j,
        {
            let row = self.suffix_at(j);
            if row.term == term {
                let row_str = self.get_str(row.key);
                if bytes_eq(&row_str, rev) {
                    found = true;
                }
            }
            j = j + 1;
        }
        found
    }

    /// Whether every term is reachable through the reversal of each of its
    /// keys.
    #[verifier::loop_isolation(false)]
    fn check_suffix_complete(&self) -> (r: bool)
        requires
            self@.fits(),
            self@.strings_ok(),
            self@.terms_ok(),
            self@.suffix_rows_ok(),
        ensures
            r == self@.suffix_complete(),
    {
        let n = self.terms.len();
        let mut t: usize = 0;
        while t < n
            invariant
                0 <= t <= n,
                n == self@.terms.len(),
                n <= u32::MAX,
                forall|q: int|
                    0 <= q < t ==> {
                        let rec = #[trigger] self@.terms[q];
                        &&& self@.has_suffix_row(grev(self@.strv(rec.expression)), q)
                        &&& (rec.reading != 0 ==> self@.has_suffix_row(
                            grev(self@.strv(rec.reading)),
                            q,
                        ))
                        &&& (rec.search_key != 0 ==> self@.has_suffix_row(
                            grev(self@.strv(rec.search_key)),
                            q,
                        ))
                    },
            decreases n - t,
        {
            let rec = self.term_at(t);
            let e_rev = reverse_graphemes(&self.get_str(rec.expression));
            if !self.contains_suffix_row(&e_rev, t as u32) {
                proof {
                    assert(!self@.has_suffix_row(
                        grev(self@.strv(self@.terms[t as int].expression)),
                        t as int,
                    ));
                }
                return false;
            }
            if rec.reading != 0 {
                let r_rev = reverse_graphemes(&self.get_str(rec.reading));
                if !self.contains_suffix_row(&r_rev, t as u32) {
                    proof {
                        assert(!self@.has_suffix_row(
                            grev(self@.strv(self@.terms[t as int].reading)),
                            t as int,
                        ));
                    }
                    return false;
                }
            }
            if rec.search_key != 0 {
                let s_rev = reverse_graphemes(&self.get_str(rec.search_key));
                if !self.contains_suffix_row(&s_rev, t as u32) {
                    proof {
                        assert(!self@.has_suffix_row(
                            grev(self@.strv(self@.terms[t as int].search_key)),
                            t as int,
                        ));
                    }
                    return false;
                }
            }
            proof {
                let rec = self@.terms[t as int];
                assert(self@.has_suffix_row(grev(self@.strv(rec.expression)), t as int));
            }
            t = t + 1;
        }
        true
    }

    /// Whether `h` is a valid list of term indexes.
    #[verifier::loop_isolation(false)]
    fn check_terms_vec(&self, h: VecHandle) -> (r: bool)
        ensures
            r == self@.terms_vec_ok(h),
    {
        let m_vec = self.vector_data.len();
        if !((h.offset as usize) <= m_vec && (h.length as usize) <= m_vec - (h.offset as usize)) {
            return false;
        }
        let sta = h.offset as usize;
        let end = sta + h.length as usize;
        let m_terms = self.terms.len();
        let mut j: usize = sta;
        while j < end
            invariant
                sta <= j <= end,
                end <= self@.vector_data.len(),
                end - sta == h.length,
                forall|q: int|
                    0 <= q < j - sta ==> #[trigger] self@.vecv(h)[q] < self@.terms.len(),
            decreases end - j,
        {
            if !((self.vector_data[j] as usize) < m_terms) {
                proof {
                    assert(self@.vecv(h)[j - sta] == self@.vector_data[j as int]);
                }
                return false;
            }
            proof {
                assert(self@.vecv(h)[j - sta] == self@.vector_data[j as int]);
            }
            j = j + 1;
        }
        true
    }

    /// Whether the character index rows are keyed ascending and each bucket
    /// holds strictly ascending term indexes.
    #[verifier::loop_isolation(false)]
    #[verifier::rlimit(100)]
    fn check_chars(&self) -> (r: bool)
        ensures
            r == self@.chars_ok(),
    {
        let n = self.index_chars_jp.len();
        let mut i: usize = 0;
        while i < n
            invariant
                0 <= i <= n,
                n == self@.index_chars_jp.len(),
                forall|k: int|
                    0 <= k < i ==> self@.terms_vec_ok(
                        (#[trigger] self@.index_chars_jp[k]).indexes,
                    ),
                forall|k: int, a: int, b: int|
                    #![trigger self@.vecv(self@.index_chars_jp[k].indexes)[a], self@.vecv(self@.index_chars_jp[k].indexes)[b]]
                    0 <= k < i && 0 <= a < b < self@.vecv(
                        self@.index_chars_jp[k].indexes,
                    ).len() ==> self@.vecv(self@.index_chars_jp[k].indexes)[a] < self@.vecv(
                        self@.index_chars_jp[k].indexes,
                    )[b],
                forall|k: int|
                    0 <= k && k + 1 < i ==> (#[trigger] self@.index_chars_jp[k]).character
                        < self@.index_chars_jp[k + 1].character,
            decreases n - i,
        {
            let row = self.chars_at(i);
            if !self.check_terms_vec(row.indexes) {
                return false;
            }
            if i >= 1 {
                let prev = self.chars_at(i - 1);
                if !(prev.character < row.character) {
                    return false;
                }
            }
            let m_vec = self.vector_data.len();
            proof {
                assert(self@.vec_ok(row.indexes));
            }
            let sta = row.indexes.offset as usize;
            let len_r = row.indexes.length as usize;
            let end = sta + len_r;
            if len_r >= 2 {
                let mut j: usize = sta + 1;
                while j < end
                    invariant
                        sta + 1 <= j <= end,
                        sta == row.indexes.offset,
                        end == row.indexes.offset + row.indexes.length,
                        end <= self@.vector_data.len(),
                        row == self@.index_chars_jp[i as int],
                        0 <= i < self@.index_chars_jp.len(),
                        forall|q: int|
                            0 <= q && q + 1 < j - sta ==> #[trigger] self@.vecv(row.indexes)[q]
                                < self@.vecv(row.indexes)[q + 1],
                    decreases end - j,
                {
                    if !(self.vector_data[j - 1] < self.vector_data[j]) {
                        proof {
                            assert(self@.vecv(row.indexes)[j - 1 - sta] == self@.vector_data[j
                                - 1]);
                            assert(self@.vecv(row.indexes)[j - sta] == self@.vector_data[j as int]);
                        }
                        return false;
                    }
                    proof {
                        assert(self@.vecv(row.indexes)[j - 1 - sta] == self@.vector_data[j - 1]);
                        assert(self@.vecv(row.indexes)[j - sta] == self@.vector_data[j as int]);
                    }
                    j = j + 1;
                }
            }
            proof {
                assert forall|a: int, b: int|
                    0 <= a < b < self@.vecv(row.indexes).len() implies #[trigger] self@.vecv(
                    row.indexes,
                )[a] < #[trigger] self@.vecv(row.indexes)[b] by {
                    lemma_u32_pairwise(self@.vecv(row.indexes), a, b);
                }
            }
            i = i + 1;
        }
        proof {
            assert forall|a: int, b: int|
                0 <= a < b < self@.index_chars_jp.len() implies (#[trigger] self@.index_chars_jp[
            a]).character < (#[trigger] self@.index_chars_jp[b]).character by {
                lemma_chars_pairwise(self@.index_chars_jp, a, b);
            }
        }
        true
    }
}

} // verus!
