//! Builder for the dictionary database.
//!
//! A [`Writer`] accumulates tags, terms and kanji.  Every string is interned
//! into an append-only arena: equal strings share one handle, and handle
//! zero is always the empty string.  Once ingestion is complete,
//! [`Writer::write`] sorts the records by relevance, builds the search
//! indexes, packs every list into the shared arenas and emits the blob.

use vstd::prelude::*;

use crate::db::DbError;
use crate::order::bytes_cmp;
use crate::order::bytes_eq;
use crate::order::lemma_lex_le_total;
use crate::order::lemma_lex_le_trans;
use crate::order::lex_le;
use crate::raw::TermIndex;
use crate::raw::VecHandle;

verus! {

/// Builder-side tag record: interned string handles plus the sort order.
#[derive(Clone, Copy, PartialEq, Eq, Structural)]
pub struct TagData {
    pub name: u32,
    pub category: u32,
    pub order: i32,
    pub notes: u32,
}

/// Builder-side term record: interned handles, scalar attributes, and the
/// not-yet-packed handle lists.
#[derive(Clone)]
pub struct TermData {
    pub expression: u32,
    pub reading: u32,
    pub search_key: u32,
    pub score: i32,
    pub sequence: u32,
    pub frequency: u32,
    pub source: u32,
    pub glossary: Vec<u32>,
    pub rules: Vec<u32>,
    pub term_tags: Vec<u32>,
    pub definition_tags: Vec<u32>,
}

/// Builder-side kanji record.  `stats` holds `(tag handle, string handle)`
/// pairs.
#[derive(Clone)]
pub struct KanjiData {
    pub character: u32,
    pub frequency: u32,
    pub source: u32,
    pub meanings: Vec<u32>,
    pub onyomi: Vec<u32>,
    pub kunyomi: Vec<u32>,
    pub tags: Vec<u32>,
    pub stats: Vec<(u32, u32)>,
}

/// The first index of `v` within `ss`, or `-1` when absent.
pub open spec fn find_str(ss: Seq<Seq<u8>>, v: Seq<u8>) -> int
    decreases ss.len(),
{
    if ss.len() == 0 {
        -1
    } else if ss[0] == v {
        0
    } else {
        let r = find_str(ss.skip(1), v);
        if r < 0 {
            -1
        } else {
            r + 1
        }
    }
}

/// `find_str` names the first occurrence, and `-1` means no occurrence.
pub proof fn lemma_find_str(ss: Seq<Seq<u8>>, v: Seq<u8>)
    ensures
        find_str(ss, v) == -1 ==> forall|i: int| 0 <= i < ss.len() ==> ss[i] != v,
        find_str(ss, v) >= 0 ==> 0 <= find_str(ss, v) < ss.len() && ss[find_str(ss, v)] == v && (
        forall|i: int| 0 <= i < find_str(ss, v) ==> ss[i] != v),
    decreases ss.len(),
{
    if ss.len() > 0 && ss[0] != v {
        lemma_find_str(ss.skip(1), v);
        assert(forall|i: int| 1 <= i < ss.len() ==> ss[i] == ss.skip(1)[i - 1]);
    }
}

/// What interning `v` does to the string arena `ss`: an existing occurrence
/// is reused; otherwise `v` is appended, unless the arena has no handle left,
/// in which case the arena is unchanged and the degenerate handle `0` comes
/// back.
pub open spec fn intern_result(ss: Seq<Seq<u8>>, v: Seq<u8>) -> (Seq<Seq<u8>>, u32) {
    let f = find_str(ss, v);
    if f >= 0 {
        (ss, f as u32)
    } else if ss.len() < u32::MAX {
        (ss.push(v), ss.len() as u32)
    } else {
        (ss, 0)
    }
}

/// Interning is idempotent: interning the same string again yields the same
/// handle and leaves the arena unchanged.
pub proof fn lemma_intern_idempotent(ss: Seq<Seq<u8>>, v: Seq<u8>)
    ensures
        intern_result(intern_result(ss, v).0, v).0 == intern_result(ss, v).0,
        intern_result(intern_result(ss, v).0, v).1 == intern_result(ss, v).1,
{
    let f = find_str(ss, v);
    lemma_find_str(ss, v);
    if f < 0 && ss.len() < u32::MAX {
        let ss2 = ss.push(v);
        lemma_find_str(ss2, v);
        let f2 = find_str(ss2, v);
        assert(ss2[ss.len() as int] == v);
        assert(f2 >= 0);
        assert(forall|i: int| 0 <= i < ss.len() ==> ss2[i] == ss[i]);
        if f2 < ss.len() {
            assert(ss2[f2] == ss[f2]);
            assert(false);
        }
        assert(f2 == ss.len());
    }
}

/// Interning the empty string into a well-formed arena yields handle zero
/// and changes nothing.
pub proof fn lemma_intern_empty(ss: Seq<Seq<u8>>)
    requires
        ss.len() >= 1,
        ss[0] == Seq::<u8>::empty(),
    ensures
        intern_result(ss, Seq::<u8>::empty()).0 == ss,
        intern_result(ss, Seq::<u8>::empty()).1 == 0,
{
    assert(find_str(ss, Seq::<u8>::empty()) == 0);
}

pub open spec fn tag_data_ok(n_strings: int, t: TagData) -> bool {
    t.name < n_strings && t.category < n_strings && t.notes < n_strings
}

pub open spec fn term_data_ok(n_strings: int, n_tags: int, t: TermData) -> bool {
    &&& t.expression != 0
    &&& t.expression < n_strings
    &&& t.reading < n_strings
    &&& t.search_key < n_strings
    &&& t.source < n_strings
    &&& forall|j: int| 0 <= j < t.glossary@.len() ==> #[trigger] t.glossary@[j] < n_strings
    &&& forall|j: int| 0 <= j < t.rules@.len() ==> #[trigger] t.rules@[j] < n_tags
    &&& forall|j: int| 0 <= j < t.term_tags@.len() ==> #[trigger] t.term_tags@[j] < n_tags
    &&& forall|j: int|
        0 <= j < t.definition_tags@.len() ==> #[trigger] t.definition_tags@[j] < n_tags
}

pub open spec fn kanji_data_ok(n_strings: int, n_tags: int, k: KanjiData) -> bool {
    &&& k.source < n_strings
    &&& forall|j: int| 0 <= j < k.meanings@.len() ==> #[trigger] k.meanings@[j] < n_strings
    &&& forall|j: int| 0 <= j < k.onyomi@.len() ==> #[trigger] k.onyomi@[j] < n_strings
    &&& forall|j: int| 0 <= j < k.kunyomi@.len() ==> #[trigger] k.kunyomi@[j] < n_strings
    &&& forall|j: int| 0 <= j < k.tags@.len() ==> #[trigger] k.tags@[j] < n_tags
    &&& forall|j: int|
        0 <= j < k.stats@.len() ==> (#[trigger] k.stats@[j]).0 < n_tags && k.stats@[j].1
            < n_strings
}

/// Builder for the dictionary database.
pub struct Writer {
    strings: Vec<Vec<u8>>,
    tags: Vec<TagData>,
    terms: Vec<TermData>,
    kanji: Vec<KanjiData>,
    full: bool,
}

impl Writer {
    /// The interned strings, by handle.
    pub closed spec fn strings(self) -> Seq<Seq<u8>> {
        Seq::new(self.strings@.len(), |i: int| self.strings@[i]@)
    }

    /// The registered tags, in registration order.
    pub closed spec fn tag_items(self) -> Seq<TagData> {
        self.tags@
    }

    /// The pushed terms, in push order.
    pub closed spec fn term_items(self) -> Seq<TermData> {
        self.terms@
    }

    /// The pushed kanji, in push order.
    pub closed spec fn kanji_items(self) -> Seq<KanjiData> {
        self.kanji@
    }

    /// Whether some arena ran out of 32-bit handles; `write` then refuses.
    pub closed spec fn is_full(self) -> bool {
        self.full
    }

    /// Builder invariant: handle zero is the empty string, every other
    /// interned string is non-empty, every count fits a handle, and every
    /// stored record only references existing handles.
    pub open spec fn wf(self) -> bool {
        &&& 1 <= self.strings().len() <= u32::MAX
        &&& self.strings()[0].len() == 0
        &&& forall|i: int| 1 <= i < self.strings().len() ==> (#[trigger] self.strings()[i]).len() > 0
        &&& self.tag_items().len() <= u32::MAX
        &&& self.term_items().len() <= u32::MAX
        &&& self.kanji_items().len() <= u32::MAX
        &&& forall|i: int|
            0 <= i < self.tag_items().len() ==> tag_data_ok(
                self.strings().len() as int,
                #[trigger] self.tag_items()[i],
            )
        &&& forall|i: int|
            0 <= i < self.term_items().len() ==> term_data_ok(
                self.strings().len() as int,
                self.tag_items().len() as int,
                #[trigger] self.term_items()[i],
            )
        &&& forall|i: int|
            0 <= i < self.kanji_items().len() ==> kanji_data_ok(
                self.strings().len() as int,
                self.tag_items().len() as int,
                #[trigger] self.kanji_items()[i],
            )
    }

    /// Whether some arena has run out of 32-bit handles; once true,
    /// `write` refuses and callers should stop pushing.
    pub fn full(&self) -> (r: bool)
        ensures
            r == self.is_full(),
    {
        self.full
    }

    /// A fresh builder with handle zero bound to the empty string.
    pub fn new() -> (r: Writer)
        ensures
            r.wf(),
            !r.is_full(),
            r.strings() =~= seq![Seq::<u8>::empty()],
            r.tag_items().len() == 0,
            r.term_items().len() == 0,
            r.kanji_items().len() == 0,
    {
        let mut strings: Vec<Vec<u8>> = Vec::new();
        strings.push(Vec::new());
        let r = Writer { strings, tags: Vec::new(), terms: Vec::new(), kanji: Vec::new(), full: false };
        proof {
            assert(r.strings() =~= seq![Seq::<u8>::empty()]);
        }
        r
    }

    /// Interns a string: returns the existing handle when the string was
    /// seen before, else appends it and returns the new handle.
    ///
    /// The lookup scans the arena, so interning is linear per call rather
    /// than the expected-constant hashing of a map; a content-keyed map is
    /// not provable here, and build time was traded for a verified arena.
    #[verifier::loop_isolation(false)]
    pub fn intern(&mut self, value: Vec<u8>) -> (h: u32)
        requires
            old(self).wf(),
        ensures
            final(self).wf(),
            final(self).tag_items() == old(self).tag_items(),
            final(self).term_items() == old(self).term_items(),
            final(self).kanji_items() == old(self).kanji_items(),
            final(self).strings() == intern_result(old(self).strings(), value@).0,
            h == intern_result(old(self).strings(), value@).1,
            final(self).is_full() == (old(self).is_full() || (find_str(
                old(self).strings(),
                value@,
            ) < 0 && old(self).strings().len() >= u32::MAX)),
            h < final(self).strings().len(),
            final(self).strings().len() >= old(self).strings().len(),
            forall|i: int|
                0 <= i < old(self).strings().len() ==> #[trigger] final(self).strings()[i] == old(
                    self,
                ).strings()[i],
    {
        let n = self.strings.len();
        let mut i: usize = 0;
        while i < n
            invariant
                0 <= i <= n,
                forall|j: int| 0 <= j < i ==> self.strings()[j] != value@,
            decreases n - i,
        {
            if bytes_eq(&self.strings[i], &value) {
                proof {
                    lemma_find_str(self.strings(), value@);
                    let f = find_str(self.strings(), value@);
                    assert(self.strings()[i as int] == value@);
                    if f == -1 {
                        assert(false);
                    }
                    if f < i {
                        assert(self.strings()[f] == value@);
                        assert(false);
                    }
                    if f > i {
                        assert(false);
                    }
                }
                return i as u32;
            }
            i = i + 1;
        }
        proof {
            lemma_find_str(self.strings(), value@);
            let f = find_str(self.strings(), value@);
            if f >= 0 {
                assert(self.strings()[f] == value@);
                assert(false);
            }
        }
        if n < u32::MAX as usize {
            let ghost before = self.strings();
            let h = n as u32;
            proof {
                if value@.len() == 0 {
                    assert(self.strings()[0] == value@);
                    assert(false);
                }
            }
            self.strings.push(value);
            proof {
                assert(self.strings() =~= before.push(value@));
            }
            h
        } else {
            self.full = true;
            0
        }
    }

    /// Appends a tag and makes it addressable by name through `get_tag`.
    pub fn push_tag(&mut self, data: TagData)
        requires
            old(self).wf(),
            tag_data_ok(old(self).strings().len() as int, data),
        ensures
            final(self).wf(),
            final(self).strings() == old(self).strings(),
            final(self).term_items() == old(self).term_items(),
            final(self).kanji_items() == old(self).kanji_items(),
            old(self).tag_items().len() < u32::MAX ==> final(self).tag_items() == old(
                self,
            ).tag_items().push(data) && final(self).is_full() == old(self).is_full(),
            old(self).tag_items().len() >= u32::MAX ==> final(self).tag_items() == old(
                self,
            ).tag_items() && final(self).is_full(),
    {
        if self.tags.len() < u32::MAX as usize {
            self.tags.push(data);
        } else {
            self.full = true;
        }
    }

    /// Appends a term record; every handle it carries must have come from
    /// this builder.
    pub fn push_term(&mut self, data: TermData)
        requires
            old(self).wf(),
            term_data_ok(
                old(self).strings().len() as int,
                old(self).tag_items().len() as int,
                data,
            ),
        ensures
            final(self).wf(),
            final(self).strings() == old(self).strings(),
            final(self).tag_items() == old(self).tag_items(),
            final(self).kanji_items() == old(self).kanji_items(),
            old(self).term_items().len() < u32::MAX ==> final(self).term_items() == old(
                self,
            ).term_items().push(data) && final(self).is_full() == old(self).is_full(),
            old(self).term_items().len() >= u32::MAX ==> final(self).term_items() == old(
                self,
            ).term_items() && final(self).is_full(),
    {
        if self.terms.len() < u32::MAX as usize {
            self.terms.push(data);
        } else {
            self.full = true;
        }
    }

    /// Appends a kanji record; every handle it carries must have come from
    /// this builder.
    pub fn push_kanji(&mut self, data: KanjiData)
        requires
            old(self).wf(),
            kanji_data_ok(
                old(self).strings().len() as int,
                old(self).tag_items().len() as int,
                data,
            ),
        ensures
            final(self).wf(),
            final(self).strings() == old(self).strings(),
            final(self).tag_items() == old(self).tag_items(),
            final(self).term_items() == old(self).term_items(),
            old(self).kanji_items().len() < u32::MAX ==> final(self).kanji_items() == old(
                self,
            ).kanji_items().push(data) && final(self).is_full() == old(self).is_full(),
            old(self).kanji_items().len() >= u32::MAX ==> final(self).kanji_items() == old(
                self,
            ).kanji_items() && final(self).is_full(),
    {
        if self.kanji.len() < u32::MAX as usize {
            self.kanji.push(data);
        } else {
            self.full = true;
        }
    }

    /// The first registered tag whose name is the string `name`.
    pub open spec fn spec_tag_by_name(self, name: Seq<u8>) -> int {
        Self::find_tag(self.tag_items(), self.strings(), name)
    }

    /// The first index of a tag named `name`, or `-1`.
    pub open spec fn find_tag(tags: Seq<TagData>, ss: Seq<Seq<u8>>, name: Seq<u8>) -> int
        decreases tags.len(),
    {
        if tags.len() == 0 {
            -1
        } else if ss[tags[0].name as int] == name {
            0
        } else {
            let r = Self::find_tag(tags.skip(1), ss, name);
            if r < 0 {
                -1
            } else {
                r + 1
            }
        }
    }

    /// `find_tag` names the first match, and `-1` means no match.
    pub proof fn lemma_find_tag(tags: Seq<TagData>, ss: Seq<Seq<u8>>, name: Seq<u8>)
        ensures
            Self::find_tag(tags, ss, name) == -1 ==> forall|i: int|
                0 <= i < tags.len() ==> ss[(#[trigger] tags[i]).name as int] != name,
            Self::find_tag(tags, ss, name) >= 0 ==> 0 <= Self::find_tag(tags, ss, name)
                < tags.len() && ss[tags[Self::find_tag(tags, ss, name)].name as int] == name && (
            forall|i: int|
                0 <= i < Self::find_tag(tags, ss, name) ==> ss[(#[trigger] tags[i]).name as int]
                    != name),
        decreases tags.len(),
    {
        if tags.len() > 0 && ss[tags[0].name as int] != name {
            Self::lemma_find_tag(tags.skip(1), ss, name);
            assert(forall|i: int| 1 <= i < tags.len() ==> tags[i] == tags.skip(1)[i - 1]);
        }
    }

    /// Resolves a tag handle by name; fails with `UnknownTag` when no tag of
    /// that name was pushed.
    #[verifier::loop_isolation(false)]
    pub fn get_tag(&self, name: &Vec<u8>) -> (r: Result<u32, DbError>)
        requires
            self.wf(),
        ensures
            match r {
                Ok(h) => h == self.spec_tag_by_name(name@) && h < self.tag_items().len(),
                Err(e) => e == DbError::UnknownTag && self.spec_tag_by_name(name@) == -1,
            },
    {
        let n = self.tags.len();
        let mut i: usize = 0;
        while i < n
            invariant
                0 <= i <= n,
                forall|j: int|
                    0 <= j < i ==> self.strings()[(#[trigger] self.tag_items()[j]).name as int]
                        != name@,
            decreases n - i,
        {
            let handle = self.tags[i].name;
            if bytes_eq(&self.strings[handle as usize], name) {
                proof {
                    Self::lemma_find_tag(self.tag_items(), self.strings(), name@);
                    let f = self.spec_tag_by_name(name@);
                    assert(self.strings()[self.tag_items()[i as int].name as int] == name@);
                    if f == -1 {
                        assert(false);
                    }
                    if f < i {
                        assert(false);
                    }
                    if f > i {
                        assert(false);
                    }
                }
                return Ok(i as u32);
            }
            i = i + 1;
        }
        proof {
            Self::lemma_find_tag(self.tag_items(), self.strings(), name@);
            let f = self.spec_tag_by_name(name@);
            if f >= 0 {
                assert(false);
            }
        }
        Err(DbError::UnknownTag)
    }

    /// Resolves many tag handles by name; fails with `UnknownTag` when any
    /// name is missing.
    #[verifier::loop_isolation(false)]
    pub fn get_tags(&self, names: &Vec<Vec<u8>>) -> (r: Result<Vec<u32>, DbError>)
        requires
            self.wf(),
        ensures
            match r {
                Ok(hs) => hs@.len() == names@.len() && forall|i: int|
                    0 <= i < hs@.len() ==> #[trigger] hs@[i] == self.spec_tag_by_name(
                        names@[i]@,
                    ) && hs@[i] < self.tag_items().len(),
                Err(e) => e == DbError::UnknownTag && exists|i: int|
                    0 <= i < names@.len() && self.spec_tag_by_name((#[trigger] names@[i])@) == -1,
            },
    {
        let mut out: Vec<u32> = Vec::new();
        let mut i: usize = 0;
        while i < names.len()
            invariant
                0 <= i <= names@.len(),
                out@.len() == i,
                forall|j: int|
                    0 <= j < i ==> #[trigger] out@[j] == self.spec_tag_by_name(names@[j]@)
                        && out@[j] < self.tag_items().len(),
            decreases names@.len() - i,
        {
            match self.get_tag(&names[i]) {
                Ok(h) => {
                    out.push(h);
                },
                Err(e) => {
                    return Err(e);
                },
            }
            i = i + 1;
        }
        Ok(out)
    }
}

/// Relevance order on builder-side terms: frequency descending, tiebroken by
/// score descending.
pub open spec fn rank_ge_data(a: TermData, b: TermData) -> bool {
    a.frequency > b.frequency || (a.frequency == b.frequency && a.score >= b.score)
}

pub open spec fn terms_sorted_data(s: Seq<TermData>) -> bool {
    forall|i: int, j: int|
        #![trigger s[i], s[j]]
        0 <= i <= j < s.len() ==> rank_ge_data(s[i], s[j])
}

pub open spec fn kanji_sorted_data(s: Seq<KanjiData>) -> bool {
    forall|i: int, j: int|
        #![trigger s[i], s[j]]
        0 <= i <= j < s.len() ==> s[i].frequency >= s[j].frequency
}

/// Index rows sorted ascending by the bytes of the referenced string.
pub open spec fn rows_sorted_by(s: Seq<TermIndex>, ss: Seq<Seq<u8>>) -> bool {
    forall|i: int, j: int|
        #![trigger s[i], s[j]]
        0 <= i <= j < s.len() ==> lex_le(ss[s[i].key as int], ss[s[j].key as int])
}


/// Inserts `x` into a descending-sorted sequence, after every element ranked
/// at or above it, so that equal ranks keep their arrival order.
pub open spec fn sorted_insert_term(s: Seq<TermData>, x: TermData) -> Seq<TermData>
    decreases s.len(),
{
    if s.len() == 0 {
        seq![x]
    } else if rank_ge_data(s[0], x) {
        seq![s[0]] + sorted_insert_term(s.skip(1), x)
    } else {
        seq![x] + s
    }
}

/// The stable relevance sort of the pushed terms: frequency descending,
/// score descending, ties kept in push order.
pub open spec fn stable_sort_terms(s: Seq<TermData>) -> Seq<TermData>
    decreases s.len(),
{
    if s.len() == 0 {
        Seq::empty()
    } else {
        sorted_insert_term(stable_sort_terms(s.drop_last()), s.last())
    }
}

/// Inserts one kanji into a frequency-descending sequence, after every
/// record of frequency at or above its own.
pub open spec fn sorted_insert_kanji(s: Seq<KanjiData>, x: KanjiData) -> Seq<KanjiData>
    decreases s.len(),
{
    if s.len() == 0 {
        seq![x]
    } else if s[0].frequency >= x.frequency {
        seq![s[0]] + sorted_insert_kanji(s.skip(1), x)
    } else {
        seq![x] + s
    }
}

/// The stable frequency sort of the pushed kanji, ties kept in push order.
pub open spec fn stable_sort_kanji(s: Seq<KanjiData>) -> Seq<KanjiData>
    decreases s.len(),
{
    if s.len() == 0 {
        Seq::empty()
    } else {
        sorted_insert_kanji(stable_sort_kanji(s.drop_last()), s.last())
    }
}

/// Inserting at the first position whose element ranks below `x` is exactly
/// the stable insertion.
proof fn lemma_sorted_insert_term_at(s: Seq<TermData>, x: TermData, p: int)
    requires
        0 <= p <= s.len(),
        forall|q: int| 0 <= q < p ==> rank_ge_data(#[trigger] s[q], x),
        p == s.len() || !rank_ge_data(s[p], x),
    ensures
        sorted_insert_term(s, x) == s.insert(p, x),
    decreases p,
{
    if s.len() == 0 {
        assert(s.insert(0, x) =~= seq![x]);
    } else if p == 0 {
        assert(s.insert(0, x) =~= seq![x] + s);
    } else {
        assert(rank_ge_data(s[0], x));
        assert(forall|q: int| 0 <= q < p - 1 ==> s.skip(1)[q] == s[q + 1]);
        if p < s.len() {
            assert(s.skip(1)[p - 1] == s[p]);
        }
        lemma_sorted_insert_term_at(s.skip(1), x, p - 1);
        assert(seq![s[0]] + s.skip(1).insert(p - 1, x) =~= s.insert(p, x));
    }
}

/// Inserting at the first position whose frequency is below `x`'s is exactly
/// the stable insertion.
proof fn lemma_sorted_insert_kanji_at(s: Seq<KanjiData>, x: KanjiData, p: int)
    requires
        0 <= p <= s.len(),
        forall|q: int| 0 <= q < p ==> (#[trigger] s[q]).frequency >= x.frequency,
        p == s.len() || !(s[p].frequency >= x.frequency),
    ensures
        sorted_insert_kanji(s, x) == s.insert(p, x),
    decreases p,
{
    if s.len() == 0 {
        assert(s.insert(0, x) =~= seq![x]);
    } else if p == 0 {
        assert(s.insert(0, x) =~= seq![x] + s);
    } else {
        assert(s[0].frequency >= x.frequency);
        assert(forall|q: int| 0 <= q < p - 1 ==> s.skip(1)[q] == s[q + 1]);
        if p < s.len() {
            assert(s.skip(1)[p - 1] == s[p]);
        }
        lemma_sorted_insert_kanji_at(s.skip(1), x, p - 1);
        assert(seq![s[0]] + s.skip(1).insert(p - 1, x) =~= s.insert(p, x));
    }
}


/// The sum of `f` over the elements of `s`.
pub open spec fn sum_of<T>(s: Seq<T>, f: spec_fn(T) -> int) -> int
    decreases s.len(),
{
    if s.len() == 0 {
        0
    } else {
        f(s[0]) + sum_of(s.skip(1), f)
    }
}

proof fn lemma_sum_push<T>(s: Seq<T>, f: spec_fn(T) -> int, x: T)
    ensures
        sum_of(s.push(x), f) == sum_of(s, f) + f(x),
    decreases s.len(),
{
    if s.len() == 0 {
        assert(s.push(x).skip(1) =~= Seq::<T>::empty());
        assert(s.push(x)[0] == x);
        assert(sum_of(Seq::<T>::empty(), f) == 0);
        assert(sum_of(s, f) == 0);
        assert(sum_of(s.push(x), f) == f(x) + sum_of(Seq::<T>::empty(), f));
    } else {
        lemma_sum_push(s.skip(1), f, x);
        assert(s.push(x).skip(1) =~= s.skip(1).push(x));
        assert(s.push(x)[0] == s[0]);
    }
}

proof fn lemma_sum_insert<T>(s: Seq<T>, f: spec_fn(T) -> int, i: int, x: T)
    requires
        0 <= i <= s.len(),
    ensures
        sum_of(s.insert(i, x), f) == sum_of(s, f) + f(x),
    decreases i,
{
    if i == 0 {
        assert(s.insert(0, x)[0] == x);
        assert(s.insert(0, x).skip(1) =~= s);
    } else {
        assert(s.insert(i, x)[0] == s[0]);
        assert(s.insert(i, x).skip(1) =~= s.skip(1).insert(i - 1, x));
        lemma_sum_insert(s.skip(1), f, i - 1, x);
    }
}

proof fn lemma_sum_remove<T>(s: Seq<T>, f: spec_fn(T) -> int, i: int)
    requires
        0 <= i < s.len(),
    ensures
        sum_of(s.remove(i), f) == sum_of(s, f) - f(s[i]),
    decreases i,
{
    if i == 0 {
        assert(s.remove(0) =~= s.skip(1));
    } else {
        assert(s.remove(i)[0] == s[0]);
        assert(s.remove(i).skip(1) =~= s.skip(1).remove(i - 1));
        lemma_sum_remove(s.skip(1), f, i - 1);
    }
}

proof fn lemma_sum_nonneg<T>(s: Seq<T>, f: spec_fn(T) -> int)
    requires
        forall|t: T| #[trigger] f(t) >= 0,
    ensures
        sum_of(s, f) >= 0,
    decreases s.len(),
{
    if s.len() > 0 {
        lemma_sum_nonneg(s.skip(1), f);
    }
}

/// A prefix of the elements never sums above the whole, for a non-negative
/// weight.
proof fn lemma_sum_prefix_le<T>(s: Seq<T>, f: spec_fn(T) -> int, i: int)
    requires
        forall|t: T| #[trigger] f(t) >= 0,
        0 <= i <= s.len(),
    ensures
        sum_of(s.subrange(0, i), f) <= sum_of(s, f),
        sum_of(s.subrange(0, i), f) >= 0,
    decreases s.len() - i,
{
    lemma_sum_nonneg(s.subrange(0, i), f);
    if i == s.len() {
        assert(s.subrange(0, i) =~= s);
    } else {
        lemma_sum_prefix_le(s, f, i + 1);
        assert(s.subrange(0, i + 1) =~= s.subrange(0, i).push(s[i]));
        lemma_sum_push(s.subrange(0, i), f, s[i]);
    }
}

proof fn lemma_sum_sorted_insert_term(s: Seq<TermData>, f: spec_fn(TermData) -> int, x: TermData)
    ensures
        sum_of(sorted_insert_term(s, x), f) == sum_of(s, f) + f(x),
    decreases s.len(),
{
    if s.len() == 0 {
        assert(sorted_insert_term(s, x) =~= s.insert(0, x));
        lemma_sum_insert(s, f, 0, x);
    } else if rank_ge_data(s[0], x) {
        lemma_sum_sorted_insert_term(s.skip(1), f, x);
        assert(sorted_insert_term(s, x)[0] == s[0]);
        assert(sorted_insert_term(s, x).skip(1) =~= sorted_insert_term(s.skip(1), x));
    } else {
        assert(sorted_insert_term(s, x) =~= s.insert(0, x));
        lemma_sum_insert(s, f, 0, x);
    }
}

/// The stable sort does not change any element sum.
proof fn lemma_sum_stable_sort_terms(s: Seq<TermData>, f: spec_fn(TermData) -> int)
    ensures
        sum_of(stable_sort_terms(s), f) == sum_of(s, f),
    decreases s.len(),
{
    if s.len() > 0 {
        lemma_sum_stable_sort_terms(s.drop_last(), f);
        lemma_sum_sorted_insert_term(stable_sort_terms(s.drop_last()), f, s.last());
        assert(s =~= s.drop_last().push(s.last()));
        lemma_sum_push(s.drop_last(), f, s.last());
    }
}

proof fn lemma_sum_sorted_insert_kanji(
    s: Seq<KanjiData>,
    f: spec_fn(KanjiData) -> int,
    x: KanjiData,
)
    ensures
        sum_of(sorted_insert_kanji(s, x), f) == sum_of(s, f) + f(x),
    decreases s.len(),
{
    if s.len() == 0 {
        assert(sorted_insert_kanji(s, x) =~= s.insert(0, x));
        lemma_sum_insert(s, f, 0, x);
    } else if s[0].frequency >= x.frequency {
        lemma_sum_sorted_insert_kanji(s.skip(1), f, x);
        assert(sorted_insert_kanji(s, x)[0] == s[0]);
        assert(sorted_insert_kanji(s, x).skip(1) =~= sorted_insert_kanji(s.skip(1), x));
    } else {
        assert(sorted_insert_kanji(s, x) =~= s.insert(0, x));
        lemma_sum_insert(s, f, 0, x);
    }
}

proof fn lemma_sum_stable_sort_kanji(s: Seq<KanjiData>, f: spec_fn(KanjiData) -> int)
    ensures
        sum_of(stable_sort_kanji(s), f) == sum_of(s, f),
    decreases s.len(),
{
    if s.len() > 0 {
        lemma_sum_stable_sort_kanji(s.drop_last(), f);
        lemma_sum_sorted_insert_kanji(stable_sort_kanji(s.drop_last()), f, s.last());
        assert(s =~= s.drop_last().push(s.last()));
        lemma_sum_push(s.drop_last(), f, s.last());
    }
}


/// A pointwise bound on the weights bounds the sums.
proof fn lemma_sum_ptwise_le<T>(s: Seq<T>, f: spec_fn(T) -> int, g: spec_fn(T) -> int)
    requires
        forall|i: int| 0 <= i < s.len() ==> #[trigger] f(s[i]) <= g(s[i]),
    ensures
        sum_of(s, f) <= sum_of(s, g),
    decreases s.len(),
{
    if s.len() > 0 {
        assert(forall|i: int|
            0 <= i < s.skip(1).len() ==> s.skip(1)[i] == s[i + 1] && f(s[i + 1]) <= g(s[i + 1]));
        lemma_sum_ptwise_le(s.skip(1), f, g);
    }
}

/// The byte length of an interned string.
pub open spec fn strlen_f() -> spec_fn(Seq<u8>) -> int {
    |s: Seq<u8>| s.len() as int
}

/// The bytes of a term's three key strings in the arena `ss` (the empty
/// string at handle zero contributes nothing).
pub open spec fn key_bytes_f(ss: Seq<Seq<u8>>) -> spec_fn(TermData) -> int {
    |t: TermData|
        ss[t.expression as int].len() + ss[t.reading as int].len() + ss[
            t.search_key as int
        ].len() as int
}

/// The arena words a term's four lists will occupy.
pub open spec fn term_words_f() -> spec_fn(TermData) -> int {
    |t: TermData|
        t.glossary@.len() + t.rules@.len() + t.term_tags@.len() + t.definition_tags@.len() as int
}

/// The arena words a kanji's lists and stat pairs will occupy.
pub open spec fn kanji_words_f() -> spec_fn(KanjiData) -> int {
    |k: KanjiData|
        k.meanings@.len() + k.onyomi@.len() + k.kunyomi@.len() + k.tags@.len() + 2 * k.stats@.len()
            as int
}

/// The elements a character bucket holds.
pub open spec fn bucket_len_f() -> spec_fn((u32, Vec<u32>)) -> int {
    |p: (u32, Vec<u32>)| p.1@.len() as int
}

impl Writer {
    /// A conservative bound under which the build pipeline cannot run out
    /// of 32-bit handles: enough string handles for one reversal per index
    /// row, string bytes for the reversals (each at most three times its
    /// source, the lossy-decoding worst case), and arena words for every
    /// list and for the character buckets (at most one entry per key byte).
    pub open spec fn build_fits(self) -> bool {
        let ss = self.strings();
        let t = self.term_items();
        let k = self.kanji_items();
        &&& ss.len() + 3 * t.len() <= u32::MAX
        &&& sum_of(ss, strlen_f()) + 3 * sum_of(t, key_bytes_f(ss)) <= u32::MAX
        &&& sum_of(t, term_words_f()) + sum_of(k, kanji_words_f()) + sum_of(t, key_bytes_f(ss))
            <= u32::MAX
    }
}

/// Stable insertion sort of terms by relevance.
#[verifier::loop_isolation(false)]
fn sort_terms(input: Vec<TermData>) -> (r: Vec<TermData>)
    ensures
        r@.to_multiset() == input@.to_multiset(),
        r@.len() == input@.len(),
        terms_sorted_data(r@),
        forall|k: int| 0 <= k < r@.len() ==> input@.contains(#[trigger] r@[k]),
        r@ == stable_sort_terms(input@),
{
    broadcast use vstd::seq_lib::to_multiset_build;
    broadcast use vstd::seq_lib::to_multiset_remove;
    broadcast use vstd::seq_lib::to_multiset_insert;
    broadcast use vstd::seq_lib::to_multiset_contains;
    broadcast use vstd::seq_lib::to_multiset_len;

    let ghost orig = input@;
    let mut src = input;
    let mut out: Vec<TermData> = Vec::new();
    proof {
        assert(out@.to_multiset().add(src@.to_multiset()) =~= orig.to_multiset());
        assert(forall|k: int| 0 <= k < src@.len() ==> orig.contains(#[trigger] src@[k]));
    }
    while src.len() > 0
        invariant
            terms_sorted_data(out@),
            out@.to_multiset().add(src@.to_multiset()) == orig.to_multiset(),
            out@.len() + src@.len() == orig.len(),
            forall|k: int| 0 <= k < out@.len() ==> orig.contains(#[trigger] out@[k]),
            forall|k: int| 0 <= k < src@.len() ==> orig.contains(#[trigger] src@[k]),
            out@ == stable_sort_terms(orig.subrange(0, out@.len() as int)),
            forall|k: int| 0 <= k < src@.len() ==> src@[k] == orig[out@.len() + k],
        decreases src@.len(),
    {
        let ghost src_before = src@;
        let x = src.remove(0);
        proof {
            assert(x == src_before[0]);
            assert(orig.contains(x));
            assert(forall|k: int|
                0 <= k < src@.len() ==> src@[k] == src_before[k + 1] && orig.contains(
                    #[trigger] src@[k],
                ));
        }
        let n = out.len();
        let mut p: usize = 0;
        let mut scanning = true;
        while scanning
            invariant
                0 <= p <= n,
                n == out@.len(),
                forall|q: int| 0 <= q < p ==> rank_ge_data(#[trigger] out@[q], x),
                !scanning ==> p == n || !rank_ge_data(out@[p as int], x),
            decreases n - p + (if scanning {
                1int
            } else {
                0int
            }),
        {
            if p == n {
                scanning = false;
            } else {
                let above = out[p].frequency > x.frequency || (out[p].frequency == x.frequency
                    && out[p].score >= x.score);
                if above {
                    p = p + 1;
                } else {
                    scanning = false;
                }
            }
        }
        let ghost prev = out@;
        out.insert(p, x);
        proof {
            assert(out@ == prev.insert(p as int, x));
            lemma_sorted_insert_term_at(prev, x, p as int);
            assert(orig.subrange(0, prev.len() as int + 1).drop_last() =~= orig.subrange(
                0,
                prev.len() as int,
            ));
            assert(orig.subrange(0, prev.len() as int + 1).last() == x);
            assert(out@ == stable_sort_terms(orig.subrange(0, prev.len() as int + 1)));
            assert(terms_sorted_data(out@)) by {
                assert(forall|a: int|
                    0 <= a < out@.len() ==> out@[a] == (if a < p {
                        prev[a]
                    } else if a == p {
                        x
                    } else {
                        prev[a - 1]
                    }));
            }
            assert(forall|k: int| 0 <= k < out@.len() ==> orig.contains(#[trigger] out@[k])) by {
                assert(forall|a: int|
                    0 <= a < out@.len() ==> out@[a] == (if a < p {
                        prev[a]
                    } else if a == p {
                        x
                    } else {
                        prev[a - 1]
                    }));
            }
            assert(out@.to_multiset().add(src@.to_multiset()) =~= orig.to_multiset());
        }
    }
    proof {
        assert(orig.subrange(0, orig.len() as int) =~= orig);
    }
    out
}

/// Stable insertion sort of kanji by frequency descending.
#[verifier::loop_isolation(false)]
fn sort_kanji(input: Vec<KanjiData>) -> (r: Vec<KanjiData>)
    ensures
        r@.to_multiset() == input@.to_multiset(),
        r@.len() == input@.len(),
        kanji_sorted_data(r@),
        forall|k: int| 0 <= k < r@.len() ==> input@.contains(#[trigger] r@[k]),
        r@ == stable_sort_kanji(input@),
{
    broadcast use vstd::seq_lib::to_multiset_build;
    broadcast use vstd::seq_lib::to_multiset_remove;
    broadcast use vstd::seq_lib::to_multiset_insert;
    broadcast use vstd::seq_lib::to_multiset_contains;
    broadcast use vstd::seq_lib::to_multiset_len;

    let ghost orig = input@;
    let mut src = input;
    let mut out: Vec<KanjiData> = Vec::new();
    proof {
        assert(out@.to_multiset().add(src@.to_multiset()) =~= orig.to_multiset());
        assert(forall|k: int| 0 <= k < src@.len() ==> orig.contains(#[trigger] src@[k]));
    }
    while src.len() > 0
        invariant
            kanji_sorted_data(out@),
            out@.to_multiset().add(src@.to_multiset()) == orig.to_multiset(),
            out@.len() + src@.len() == orig.len(),
            forall|k: int| 0 <= k < out@.len() ==> orig.contains(#[trigger] out@[k]),
            forall|k: int| 0 <= k < src@.len() ==> orig.contains(#[trigger] src@[k]),
            out@ == stable_sort_kanji(orig.subrange(0, out@.len() as int)),
            forall|k: int| 0 <= k < src@.len() ==> src@[k] == orig[out@.len() + k],
        decreases src@.len(),
    {
        let ghost src_before = src@;
        let x = src.remove(0);
        proof {
            assert(x == src_before[0]);
            assert(orig.contains(x));
            assert(forall|k: int|
                0 <= k < src@.len() ==> src@[k] == src_before[k + 1] && orig.contains(
                    #[trigger] src@[k],
                ));
        }
        let n = out.len();
        let mut p: usize = 0;
        let mut scanning = true;
        while scanning
            invariant
                0 <= p <= n,
                n == out@.len(),
                forall|q: int| 0 <= q < p ==> (#[trigger] out@[q]).frequency >= x.frequency,
                !scanning ==> p == n || !(out@[p as int].frequency >= x.frequency),
            decreases n - p + (if scanning {
                1int
            } else {
                0int
            }),
        {
            if p == n {
                scanning = false;
            } else {
                if out[p].frequency >= x.frequency {
                    p = p + 1;
                } else {
                    scanning = false;
                }
            }
        }
        let ghost prev = out@;
        out.insert(p, x);
        proof {
            assert(out@ == prev.insert(p as int, x));
            lemma_sorted_insert_kanji_at(prev, x, p as int);
            assert(orig.subrange(0, prev.len() as int + 1).drop_last() =~= orig.subrange(
                0,
                prev.len() as int,
            ));
            assert(orig.subrange(0, prev.len() as int + 1).last() == x);
            assert(out@ == stable_sort_kanji(orig.subrange(0, prev.len() as int + 1)));
            assert(kanji_sorted_data(out@)) by {
                assert(forall|a: int|
                    0 <= a < out@.len() ==> out@[a] == (if a < p {
                        prev[a]
                    } else if a == p {
                        x
                    } else {
                        prev[a - 1]
                    }));
            }
            assert(forall|k: int| 0 <= k < out@.len() ==> orig.contains(#[trigger] out@[k])) by {
                assert(forall|a: int|
                    0 <= a < out@.len() ==> out@[a] == (if a < p {
                        prev[a]
                    } else if a == p {
                        x
                    } else {
                        prev[a - 1]
                    }));
            }
            assert(out@.to_multiset().add(src@.to_multiset()) =~= orig.to_multiset());
        }
    }
    proof {
        assert(orig.subrange(0, orig.len() as int) =~= orig);
    }
    out
}

/// Insertion sort of index rows by the byte order of the referenced string.
#[verifier::loop_isolation(false)]
fn sort_rows(input: Vec<TermIndex>, strings: &Vec<Vec<u8>>) -> (r: Vec<TermIndex>)
    requires
        forall|k: int| 0 <= k < input@.len() ==> (#[trigger] input@[k]).key < strings@.len(),
    ensures
        r@.to_multiset() == input@.to_multiset(),
        r@.len() == input@.len(),
        rows_sorted_by(r@, Seq::new(strings@.len(), |i: int| strings@[i]@)),
        forall|k: int| 0 <= k < r@.len() ==> input@.contains(#[trigger] r@[k]),
{
    broadcast use vstd::seq_lib::to_multiset_build;
    broadcast use vstd::seq_lib::to_multiset_remove;
    broadcast use vstd::seq_lib::to_multiset_insert;
    broadcast use vstd::seq_lib::to_multiset_contains;
    broadcast use vstd::seq_lib::to_multiset_len;

    let ghost ss = Seq::new(strings@.len(), |i: int| strings@[i]@);
    let ghost orig = input@;
    let mut src = input;
    let mut out: Vec<TermIndex> = Vec::new();
    proof {
        assert(out@.to_multiset().add(src@.to_multiset()) =~= orig.to_multiset());
        assert(forall|k: int| 0 <= k < src@.len() ==> orig.contains(#[trigger] src@[k]));
    }
    while src.len() > 0
        invariant
            rows_sorted_by(out@, ss),
            out@.to_multiset().add(src@.to_multiset()) == orig.to_multiset(),
            out@.len() + src@.len() == orig.len(),
            forall|k: int| 0 <= k < out@.len() ==> orig.contains(#[trigger] out@[k]),
            forall|k: int| 0 <= k < src@.len() ==> orig.contains(#[trigger] src@[k]),
            forall|k: int| 0 <= k < out@.len() ==> (#[trigger] out@[k]).key < ss.len(),
            forall|k: int| 0 <= k < src@.len() ==> (#[trigger] src@[k]).key < ss.len(),
        decreases src@.len(),
    {
        let ghost src_before = src@;
        let x = src.remove(0);
        proof {
            assert(x == src_before[0]);
            assert(orig.contains(x));
            assert(forall|k: int|
                0 <= k < src@.len() ==> src@[k] == src_before[k + 1] && orig.contains(
                    #[trigger] src@[k],
                ));
        }
        let n = out.len();
        let mut p: usize = 0;
        let mut scanning = true;
        while scanning
            invariant
                0 <= p <= n,
                n == out@.len(),
                forall|q: int|
                    0 <= q < p ==> lex_le(ss[(#[trigger] out@[q]).key as int], ss[x.key as int]),
                !scanning ==> p == n || !lex_le(ss[out@[p as int].key as int], ss[x.key as int]),
            decreases n - p + (if scanning {
                1int
            } else {
                0int
            }),
        {
            if p == n {
                scanning = false;
            } else {
                let c = bytes_cmp(&strings[out[p].key as usize], &strings[x.key as usize]);
                if c <= 0 {
                    p = p + 1;
                } else {
                    scanning = false;
                }
            }
        }
        let ghost prev = out@;
        out.insert(p, x);
        proof {
            assert(out@ == prev.insert(p as int, x));
            assert(forall|a: int|
                0 <= a < out@.len() ==> out@[a] == (if a < p {
                    prev[a]
                } else if a == p {
                    x
                } else {
                    prev[a - 1]
                }));
            assert(rows_sorted_by(out@, ss)) by {
                assert forall|i: int, j: int|
                    0 <= i <= j < out@.len() implies lex_le(
                    ss[(#[trigger] out@[i]).key as int],
                    ss[(#[trigger] out@[j]).key as int],
                ) by {
                    let si = ss[out@[i].key as int];
                    let sj = ss[out@[j].key as int];
                    let sx = ss[x.key as int];
                    if i < p && j == p {
                        assert(lex_le(si, sx));
                    } else if i == p && j > p {
                        assert(!lex_le(ss[prev[p as int].key as int], sx));
                        lemma_lex_le_total(ss[prev[p as int].key as int], sx);
                        assert(lex_le(sx, ss[prev[p as int].key as int]));
                        assert(lex_le(ss[prev[p as int].key as int], sj));
                        lemma_lex_le_trans(sx, ss[prev[p as int].key as int], sj);
                    } else if i == p && j == p {
                        lemma_lex_le_total(sx, sx);
                    } else {
                        assert(lex_le(si, sj));
                    }
                }
            }
            assert(forall|k: int| 0 <= k < out@.len() ==> orig.contains(#[trigger] out@[k]));
            assert(forall|k: int| 0 <= k < out@.len() ==> (#[trigger] out@[k]).key < ss.len());
            assert(out@.to_multiset().add(src@.to_multiset()) =~= orig.to_multiset());
        }
    }
    out
}

/// Appends a list to the vector arena and returns its handle; the empty
/// list is always `{0, 0}` and consumes no space.
#[verifier::loop_isolation(false)]
fn push_list(vector_data: &mut Vec<u32>, list: &Vec<u32>) -> (r: Result<VecHandle, DbError>)
    requires
        old(vector_data)@.len() <= u32::MAX,
    ensures
        r matches Ok(h) ==> final(vector_data)@.len() <= u32::MAX && h.offset + h.length <= final(vector_data)@.len() && final(vector_data)@.subrange(h.offset as int, h.offset + h.length) == list@
            && h.length == list@.len() && (list@.len() == 0 ==> h == (VecHandle {
            offset: 0,
            length: 0,
        }) && final(vector_data)@ == old(vector_data)@) && (list@.len() > 0 ==> h.offset == old(vector_data)@.len() && final(vector_data)@ == old(vector_data)@ + list@),
        r matches Err(e) ==> e == DbError::Capacity && final(vector_data)@ == old(vector_data)@,
        r is Err ==> old(vector_data)@.len() + list@.len() > u32::MAX,
        old(vector_data)@.len() + list@.len() <= u32::MAX ==> r is Ok,
        r is Ok ==> final(vector_data)@.len() == old(vector_data)@.len() + list@.len(),
        old(vector_data)@.len() <= final(vector_data)@.len(),
        forall|i: int|
            0 <= i < old(vector_data)@.len() ==> #[trigger] final(vector_data)@[i] == old(vector_data)@[i],
    {
    let list_len = list.len();
    if list_len == 0 {
        proof {
            assert(vector_data@.subrange(0, 0) =~= list@);
        }
        return Ok(VecHandle { offset: 0, length: 0 });
    }
    let cur = vector_data.len();
    if list_len > u32::MAX as usize - cur {
        return Err(DbError::Capacity);
    }
    let mut i: usize = 0;
    while i < list_len
        invariant
            0 <= i <= list@.len(),
            vector_data@ == old(vector_data)@ + list@.subrange(0, i as int),
        decreases list_len - i,
    {
        vector_data.push(list[i]);
        proof {
            assert(vector_data@ =~= old(vector_data)@ + list@.subrange(0, i + 1));
        }
        i = i + 1;
    }
    proof {
        assert(list@.subrange(0, list@.len() as int) =~= list@);
        assert(vector_data@.subrange(cur as int, cur + list@.len()) =~= list@);
    }
    Ok(VecHandle { offset: cur as u32, length: list_len as u32 })
}

/// Interns into a bare string arena during the build, failing when the
/// arena runs out of handles.
#[verifier::loop_isolation(false)]
fn arena_intern(strings: &mut Vec<Vec<u8>>, value: Vec<u8>) -> (r: Result<u32, DbError>)
    requires
        old(strings)@.len() <= u32::MAX,
    ensures
        ({
            let ss = Seq::new(old(strings)@.len(), |i: int| old(strings)@[i]@);
            let ss2 = Seq::new(final(strings)@.len(), |i: int| final(strings)@[i]@);
            &&& final(strings)@.len() <= u32::MAX
            &&& (r matches Ok(h) ==> h < ss2.len() && ss2[h as int] == value@ && (find_str(
                ss,
                value@,
            ) >= 0 ==> h == find_str(ss, value@) && ss2 == ss) && (find_str(ss, value@) < 0 ==> h
                == ss.len() && ss2 == ss.push(value@)))
            &&& (r matches Err(e) ==> e == DbError::Capacity && ss2 == ss)
            &&& (ss.len() < u32::MAX ==> r is Ok)
            &&& ss.len() <= ss2.len()
            &&& (forall|i: int| 0 <= i < ss.len() ==> #[trigger] ss2[i] == ss[i])
        }),
{
    let ghost ss = Seq::new(strings@.len(), |i: int| strings@[i]@);
    let n = strings.len();
    let mut i: usize = 0;
    while i < n
        invariant
            0 <= i <= n,
            n == strings@.len(),
            strings@ == old(strings)@,
            forall|j: int| 0 <= j < i ==> (#[trigger] strings@[j])@ != value@,
        decreases n - i,
    {
        if bytes_eq(&strings[i], &value) {
            proof {
                lemma_find_str(ss, value@);
                let f = find_str(ss, value@);
                assert(ss[i as int] == value@);
                if f == -1 {
                    assert(false);
                }
                if f < i {
                    assert(false);
                }
                if f > i {
                    assert(false);
                }
            }
            return Ok(i as u32);
        }
        i = i + 1;
    }
    proof {
        lemma_find_str(ss, value@);
        let f = find_str(ss, value@);
        if f >= 0 {
            assert(false);
        }
    }
    if n < u32::MAX as usize {
        strings.push(value);
        proof {
            assert(Seq::new(strings@.len(), |i: int| strings@[i]@) =~= ss.push(
                old(strings)@[0]@,
            ).update(ss.len() as int, strings@[ss.len() as int]@));
            assert(Seq::new(strings@.len(), |i: int| strings@[i]@) =~= ss.push(
                strings@[ss.len() as int]@,
            ));
        }
        Ok(n as u32)
    } else {
        Err(DbError::Capacity)
    }
}

/// `h` is one of the key handles under which the builder-side term is
/// indexed.
pub open spec fn data_key_handle(t: TermData, h: u32) -> bool {
    ||| h == t.expression
    ||| (t.reading != 0 && h == t.reading)
    ||| (t.search_key != 0 && h == t.search_key)
}



/// How many index rows one term contributes: its expression always, its
/// reading and search key when they are not the empty-string handle.
pub open spec fn rows_per_term_f() -> spec_fn(TermData) -> int {
    |t: TermData|
        1int + (if t.reading != 0 {
            1int
        } else {
            0int
        }) + (if t.search_key != 0 {
            1int
        } else {
            0int
        })
}

/// The byte length of an index row's referenced string.
pub open spec fn row_bytes_f(ss: Seq<Seq<u8>>) -> spec_fn(TermIndex) -> int {
    |row: TermIndex| ss[row.key as int].len() as int
}

/// In a strictly key-ascending bucket list, position is a lower bound on
/// the key.
proof fn lemma_bucket_lb(s: Seq<(u32, Vec<u32>)>, k: int)
    requires
        forall|b: int, c: int|
            #![trigger s[b], s[c]]
            0 <= b < c < s.len() ==> s[b].0 < s[c].0,
        0 <= k < s.len(),
    ensures
        s[k].0 >= k,
    decreases k,
{
    if k > 0 {
        lemma_bucket_lb(s, k - 1);
        assert(s[k - 1].0 < s[k].0);
    }
}

/// One prefix row per non-empty key of each term, in term order.
#[verifier::loop_isolation(false)]
fn build_prefix_rows(terms: &Vec<TermData>, Ghost(ss): Ghost<Seq<Seq<u8>>>) -> (r: Vec<
    TermIndex,
>)
    requires
        terms@.len() <= u32::MAX,
    ensures
        r@.len() <= 3 * terms@.len(),
        r@.len() == sum_of(terms@, rows_per_term_f()),
        sum_of(r@, row_bytes_f(ss)) <= sum_of(terms@, key_bytes_f(ss)),
        forall|k: int|
            0 <= k < r@.len() ==> (#[trigger] r@[k]).term < terms@.len() && data_key_handle(
                terms@[r@[k].term as int],
                r@[k].key,
            ),
        forall|t: int|
            0 <= t < terms@.len() ==> {
                let rec = #[trigger] terms@[t];
                &&& r@.contains(TermIndex { key: rec.expression, term: t as u32 })
                &&& (rec.reading != 0 ==> r@.contains(TermIndex { key: rec.reading, term: t as u32 }))
                &&& (rec.search_key != 0 ==> r@.contains(
                    TermIndex { key: rec.search_key, term: t as u32 },
                ))
            },
{
    let n = terms.len();
    let mut out: Vec<TermIndex> = Vec::new();
    let mut t: usize = 0;
    while t < n
        invariant
            0 <= t <= n,
            n == terms@.len(),
            out@.len() <= 3 * t,
            out@.len() == sum_of(terms@.subrange(0, t as int), rows_per_term_f()),
            sum_of(out@, row_bytes_f(ss)) <= sum_of(terms@.subrange(0, t as int), key_bytes_f(ss)),
            forall|k: int|
                0 <= k < out@.len() ==> (#[trigger] out@[k]).term < terms@.len()
                    && data_key_handle(terms@[out@[k].term as int], out@[k].key),
            forall|q: int|
                0 <= q < t ==> {
                    let rec = #[trigger] terms@[q];
                    &&& out@.contains(TermIndex { key: rec.expression, term: q as u32 })
                    &&& (rec.reading != 0 ==> out@.contains(
                        TermIndex { key: rec.reading, term: q as u32 },
                    ))
                    &&& (rec.search_key != 0 ==> out@.contains(
                        TermIndex { key: rec.search_key, term: q as u32 },
                    ))
                },
        decreases n - t,
    {
        let rec_expression = terms[t].expression;
        let rec_reading = terms[t].reading;
        let rec_search_key = terms[t].search_key;
        let ghost before = out@;
        let ghost sum_before = sum_of(out@, row_bytes_f(ss));
        out.push(TermIndex { key: rec_expression, term: t as u32 });
        proof {
            lemma_sum_push(before, row_bytes_f(ss), TermIndex { key: rec_expression, term: t as u32 });
        }
        if rec_reading != 0 {
            proof {
                lemma_sum_push(
                    out@,
                    row_bytes_f(ss),
                    TermIndex { key: rec_reading, term: t as u32 },
                );
            }
            out.push(TermIndex { key: rec_reading, term: t as u32 });
        }
        if rec_search_key != 0 {
            proof {
                lemma_sum_push(
                    out@,
                    row_bytes_f(ss),
                    TermIndex { key: rec_search_key, term: t as u32 },
                );
            }
            out.push(TermIndex { key: rec_search_key, term: t as u32 });
        }
        proof {
            assert(sum_of(out@, row_bytes_f(ss)) <= sum_before + key_bytes_f(ss)(terms@[t as int]));
            assert(terms@.subrange(0, t + 1) =~= terms@.subrange(0, t as int).push(
                terms@[t as int],
            ));
            lemma_sum_push(terms@.subrange(0, t as int), key_bytes_f(ss), terms@[t as int]);
            lemma_sum_push(terms@.subrange(0, t as int), rows_per_term_f(), terms@[t as int]);
            assert(out@.len() - before.len() == rows_per_term_f()(terms@[t as int]));
            assert(forall|k: int|
                0 <= k < before.len() ==> out@[k] == #[trigger] before[k]);
            assert(out@.contains(TermIndex { key: rec_expression, term: t as u32 })) by {
                assert(out@[before.len() as int] == (TermIndex {
                    key: rec_expression,
                    term: t as u32,
                }));
            }
            if rec_reading != 0 {
                assert(out@.contains(TermIndex { key: rec_reading, term: t as u32 })) by {
                    assert(out@[before.len() as int + 1] == (TermIndex {
                        key: rec_reading,
                        term: t as u32,
                    }));
                }
            }
            if rec_search_key != 0 {
                let at: int = if rec_reading != 0 {
                    before.len() as int + 2
                } else {
                    before.len() as int + 1
                };
                assert(out@.contains(TermIndex { key: rec_search_key, term: t as u32 })) by {
                    assert(out@[at] == (TermIndex { key: rec_search_key, term: t as u32 }));
                }
            }
            assert forall|row: TermIndex| before.contains(row) implies out@.contains(row) by {
                let w = choose|w: int| 0 <= w < before.len() && before[w] == row;
                assert(out@[w] == row);
            }
        }
        t = t + 1;
    }
    proof {
        assert(terms@.subrange(0, n as int) =~= terms@);
    }
    out
}

/// Clones the prefix rows, replacing each key with the newly interned
/// grapheme reversal of its string.
#[verifier::loop_isolation(false)]
fn build_suffix_rows(rows: &Vec<TermIndex>, strings: &mut Vec<Vec<u8>>) -> (r: Result<
    Vec<TermIndex>,
    DbError,
>)
    requires
        old(strings)@.len() <= u32::MAX,
        forall|k: int|
            0 <= k < rows@.len() ==> (#[trigger] rows@[k]).key < old(strings)@.len()
                && rows@[k].key != 0,
        forall|i: int| 1 <= i < old(strings)@.len() ==> (#[trigger] old(strings)@[i])@.len() > 0,
    ensures
        ({
            let ss = Seq::new(old(strings)@.len(), |i: int| old(strings)@[i]@);
            let ss2 = Seq::new(final(strings)@.len(), |i: int| final(strings)@[i]@);
            &&& final(strings)@.len() <= u32::MAX
            &&& ss.len() <= ss2.len()
            &&& (forall|i: int| 0 <= i < ss.len() ==> #[trigger] ss2[i] == ss[i])
            &&& (forall|i: int| 1 <= i < ss2.len() ==> (#[trigger] ss2[i]).len() > 0)
            &&& (r matches Ok(sr) ==> sr@.len() == rows@.len() && (forall|k: int|
                0 <= k < sr@.len() ==> (#[trigger] sr@[k]).term == rows@[k].term && sr@[k].key
                    < ss2.len() && ss2[sr@[k].key as int] == crate::grapheme::grev(
                    ss2[rows@[k].key as int],
                )))
            &&& (r matches Err(e) ==> e == DbError::Capacity)
            &&& (ss.len() + rows@.len() <= u32::MAX ==> r is Ok)
            &&& (r is Ok ==> sum_of(ss2, strlen_f()) <= sum_of(ss, strlen_f()) + 3 * sum_of(
                rows@,
                row_bytes_f(ss),
            ))
        }),
{
    let ghost ss = Seq::new(strings@.len(), |i: int| strings@[i]@);
    let n = rows.len();
    let mut out: Vec<TermIndex> = Vec::new();
    let mut k: usize = 0;
    while k < n
        invariant
            0 <= k <= n,
            n == rows@.len(),
            strings@.len() <= u32::MAX,
            ss.len() <= strings@.len(),
            forall|i: int| 0 <= i < ss.len() ==> (#[trigger] strings@[i])@ == ss[i],
            forall|i: int| 1 <= i < strings@.len() ==> (#[trigger] strings@[i])@.len() > 0,
            strings@.len() <= ss.len() + k,
            sum_of(Seq::new(strings@.len(), |z: int| strings@[z]@), strlen_f()) <= sum_of(
                ss,
                strlen_f(),
            ) + 3 * sum_of(rows@.subrange(0, k as int), row_bytes_f(ss)),
            out@.len() == k,
            forall|q: int|
                0 <= q < k ==> (#[trigger] out@[q]).term == rows@[q].term && out@[q].key
                    < strings@.len() && (Seq::new(strings@.len(), |z: int| strings@[z]@))[
                out@[q].key as int] == crate::grapheme::grev(
                    (Seq::new(strings@.len(), |z: int| strings@[z]@))[rows@[q].key as int],
                ),
        decreases n - k,
    {
        let ghost ss_loop = Seq::new(strings@.len(), |z: int| strings@[z]@);
        let row = rows[k];
        let rev = crate::grapheme::reverse_graphemes(&strings[row.key as usize]);
        proof {
            assert(strings@[row.key as int]@ == ss_loop[row.key as int]);
            assert(ss_loop[row.key as int] == ss[row.key as int]);
            assert(rev@.len() <= 3 * ss[row.key as int].len());
        }
        let h2 = match arena_intern(strings, rev) {
            Ok(h) => h,
            Err(e) => {
                proof {
                    assert(Seq::new(strings@.len(), |z: int| strings@[z]@) =~= ss_loop);
                    assert(ss_loop.len() >= u32::MAX);
                    assert(ss.len() + rows@.len() > u32::MAX) by {
                        if ss.len() + rows@.len() <= u32::MAX {
                            assert(ss_loop.len() <= ss.len() + k);
                            assert(k < rows@.len());
                            assert(false);
                        }
                    }
                }
                return Err(e);
            },
        };
        proof {
            let ss_new = Seq::new(strings@.len(), |z: int| strings@[z]@);
            assert(ss_new[h2 as int] == crate::grapheme::grev(ss_loop[row.key as int]));
            assert(forall|i: int| 0 <= i < ss_loop.len() ==> #[trigger] ss_new[i] == ss_loop[i]);
            assert(forall|q: int|
                0 <= q < k ==> (#[trigger] out@[q]).key < ss_new.len() && ss_new[out@[q].key as int]
                    == crate::grapheme::grev(ss_new[rows@[q].key as int]));
            assert(forall|i: int| 0 <= i < strings@.len() ==> ss_new[i] == (#[trigger] strings@[i])@);
            assert(forall|i: int| 0 <= i < ss.len() ==> (#[trigger] strings@[i])@ == ss[i]);
            if find_str(ss_loop, rev@) >= 0 {
                assert(ss_new == ss_loop);
            } else {
                assert(ss_new == ss_loop.push(rev@));
                lemma_sum_push(ss_loop, strlen_f(), rev@);
            }
            assert(rows@.subrange(0, k + 1) =~= rows@.subrange(0, k as int).push(rows@[k as int]));
            lemma_sum_push(rows@.subrange(0, k as int), row_bytes_f(ss), rows@[k as int]);
            assert(sum_of(ss_new, strlen_f()) <= sum_of(ss, strlen_f()) + 3 * sum_of(
                rows@.subrange(0, k + 1),
                row_bytes_f(ss),
            ));
        }
        out.push(TermIndex { key: h2, term: row.term });
        k = k + 1;
    }
    proof {
        assert(rows@.subrange(0, n as int) =~= rows@);
    }
    Ok(out)
}

/// The per-character buckets of term indexes: one bucket per code point
/// appearing in any term's expression or reading, keyed ascending, each
/// holding the strictly ascending indexes of the terms containing it.
#[verifier::loop_isolation(false)]
#[verifier::rlimit(100)]
fn build_char_buckets(terms: &Vec<TermData>, strings: &Vec<Vec<u8>>) -> (r: Vec<(u32, Vec<u32>)>)
    requires
        terms@.len() <= u32::MAX,
        forall|t: int|
            0 <= t < terms@.len() ==> (#[trigger] terms@[t]).expression < strings@.len()
                && terms@[t].reading < strings@.len(),
    ensures
        r@.len() <= 0x400000,
        sum_of(r@, bucket_len_f()) <= sum_of(
            terms@,
            key_bytes_f(Seq::new(strings@.len(), |i: int| strings@[i]@)),
        ),
        forall|b: int, c: int|
            #![trigger r@[b], r@[c]]
            0 <= b < c < r@.len() ==> r@[b].0 < r@[c].0,
        forall|b: int, x: int, y: int|
            #![trigger r@[b].1@[x], r@[b].1@[y]]
            0 <= b < r@.len() && 0 <= x < y < r@[b].1@.len() ==> r@[b].1@[x] < r@[b].1@[y],
        forall|b: int, x: int|
            0 <= b < r@.len() && 0 <= x < r@[b].1@.len() ==> #[trigger] r@[b].1@[x]
                < terms@.len(),
{
    let ghost ssv = Seq::new(strings@.len(), |i: int| strings@[i]@);
    let n = terms.len();
    let mut buckets: Vec<(u32, Vec<u32>)> = Vec::new();
    let mut t: usize = 0;
    while t < n
        invariant
            0 <= t <= n,
            n == terms@.len(),
            forall|b: int| 0 <= b < buckets@.len() ==> (#[trigger] buckets@[b]).0 < 0x400000,
            sum_of(buckets@, bucket_len_f()) <= sum_of(
                terms@.subrange(0, t as int),
                key_bytes_f(ssv),
            ),
            forall|b: int, c: int|
                #![trigger buckets@[b], buckets@[c]]
                0 <= b < c < buckets@.len() ==> buckets@[b].0 < buckets@[c].0,
            forall|b: int, x: int, y: int|
                #![trigger buckets@[b].1@[x], buckets@[b].1@[y]]
                0 <= b < buckets@.len() && 0 <= x < y < buckets@[b].1@.len() ==> buckets@[b].1@[x]
                    < buckets@[b].1@[y],
            forall|b: int, x: int|
                0 <= b < buckets@.len() && 0 <= x < buckets@[b].1@.len() ==> #[trigger] buckets@[
                b].1@[x] < t,
        decreases n - t,
    {
        let merged = crate::utf8::distinct_code_points(
            &strings[terms[t].expression as usize],
            &strings[terms[t].reading as usize],
        );
        let ghost e_str = strings@[terms@[t as int].expression as int]@;
        let ghost r_str = strings@[terms@[t as int].reading as int]@;
        proof {
            crate::utf8::lemma_cps_bounded(e_str);
            crate::utf8::lemma_cps_bounded(r_str);
            crate::utf8::lemma_cps_len_le(e_str);
            crate::utf8::lemma_cps_len_le(r_str);
            assert forall|z: int| 0 <= z < merged@.len() implies #[trigger] merged@[z]
                < 0x400000 by {
                assert(merged@.contains(merged@[z]));
                assert(merged@.to_set().contains(merged@[z]));
                if crate::utf8::cps(e_str).to_set().contains(merged@[z]) {
                    let w = choose|w: int|
                        0 <= w < crate::utf8::cps(e_str).len() && crate::utf8::cps(e_str)[w]
                            == merged@[z];
                } else {
                    assert(crate::utf8::cps(r_str).to_set().contains(merged@[z]));
                    let w = choose|w: int|
                        0 <= w < crate::utf8::cps(r_str).len() && crate::utf8::cps(r_str)[w]
                            == merged@[z];
                }
            }
            assert(merged@.len() <= e_str.len() + r_str.len());
        }
        let ghost sum_start = sum_of(buckets@, bucket_len_f());
        let m_len = merged.len();
        let mut kx: usize = 0;
        while kx < m_len
            invariant
                0 <= kx <= m_len,
                m_len == merged@.len(),
                t < n,
                n == terms@.len(),
                forall|z: int| 0 <= z < merged@.len() ==> #[trigger] merged@[z] < 0x400000,
                forall|b: int| 0 <= b < buckets@.len() ==> (#[trigger] buckets@[b]).0 < 0x400000,
                sum_of(buckets@, bucket_len_f()) <= sum_start + kx,
                forall|a: int, b: int| 0 <= a < b < merged@.len() ==> merged@[a] != merged@[b],
                forall|b: int, c: int|
                    #![trigger buckets@[b], buckets@[c]]
                    0 <= b < c < buckets@.len() ==> buckets@[b].0 < buckets@[c].0,
                forall|b: int, x: int, y: int|
                    #![trigger buckets@[b].1@[x], buckets@[b].1@[y]]
                    0 <= b < buckets@.len() && 0 <= x < y < buckets@[b].1@.len() ==> buckets@[
                    b].1@[x] < buckets@[b].1@[y],
                forall|b: int, x: int|
                    0 <= b < buckets@.len() && 0 <= x < buckets@[b].1@.len() ==> #[trigger]
                    buckets@[b].1@[x] <= t,
                forall|b: int|
                    0 <= b < buckets@.len() && (#[trigger] buckets@[b]).1@.contains(t as u32)
                        ==> (exists|z: int| 0 <= z < kx && merged@[z] == buckets@[b].0),
            decreases m_len - kx,
        {
            let cp = merged[kx];
            let bn = buckets.len();
            let mut p: usize = 0;
            let mut scanning = true;
            while scanning
                invariant
                    0 <= p <= bn,
                    bn == buckets@.len(),
                    forall|q: int| 0 <= q < p ==> (#[trigger] buckets@[q]).0 < cp,
                    !scanning ==> p == bn || buckets@[p as int].0 >= cp,
                decreases bn - p + (if scanning {
                    1int
                } else {
                    0int
                }),
            {
                if p == bn {
                    scanning = false;
                } else if buckets[p].0 >= cp {
                    scanning = false;
                } else {
                    p = p + 1;
                }
            }
            let ghost before = buckets@;
            if p < bn && buckets[p].0 == cp {
                proof {
                    assert(!before[p as int].1@.contains(t as u32)) by {
                        if before[p as int].1@.contains(t as u32) {
                            let z = choose|z: int| 0 <= z < kx && merged@[z] == before[p as int].0;
                            assert(merged@[z] == cp && merged@[kx as int] == cp);
                            assert(false);
                        }
                    }
                    assert(forall|x: int|
                        0 <= x < before[p as int].1@.len() ==> #[trigger] before[p as int].1@[x]
                            < t as u32) by {
                        assert(forall|x: int|
                            0 <= x < before[p as int].1@.len() ==> #[trigger] before[
                            p as int].1@[x] <= t as u32 && before[p as int].1@[x] != t as u32);
                    }
                }
                let ghost pre = buckets@;
                let pair = buckets.remove(p);
                let cp0 = pair.0;
                let mut idxs = pair.1;
                let ghost old_idxs = idxs@;
                idxs.push(t as u32);
                buckets.insert(p, (cp0, idxs));
                proof {
                    lemma_sum_remove(pre, bucket_len_f(), p as int);
                    lemma_sum_insert(pre.remove(p as int), bucket_len_f(), p as int, buckets@[
                    p as int]);
                    assert(sum_of(buckets@, bucket_len_f()) == sum_of(pre, bucket_len_f()) + 1);
                    assert(buckets@ =~= before.update(p as int, buckets@[p as int]));
                    assert(buckets@[p as int].0 == cp);
                    assert(buckets@[p as int].1@ == old_idxs.push(t as u32));
                    assert(forall|a: int|
                        0 <= a < buckets@.len() && a != p ==> buckets@[a] == #[trigger] before[a]);
                    assert(forall|x: int|
                        0 <= x < old_idxs.len() ==> #[trigger] old_idxs[x] < t as u32);
                }
            } else {
                let ghost pre = buckets@;
                let mut fresh: Vec<u32> = Vec::new();
                fresh.push(t as u32);
                buckets.insert(p, (cp, fresh));
                proof {
                    lemma_sum_insert(pre, bucket_len_f(), p as int, buckets@[p as int]);
                    assert(sum_of(buckets@, bucket_len_f()) == sum_of(pre, bucket_len_f()) + 1);
                    assert(forall|a: int|
                        0 <= a < buckets@.len() ==> buckets@[a] == (if a < p {
                            before[a]
                        } else if a == p {
                            buckets@[p as int]
                        } else {
                            before[a - 1]
                        }));
                    assert(buckets@[p as int].0 == cp && buckets@[p as int].1@ =~= seq![
                        t as u32,
                    ]);
                }
            }
            kx = kx + 1;
        }
        proof {
            assert(key_bytes_f(ssv)(terms@[t as int]) >= e_str.len() + r_str.len());
            assert(sum_of(buckets@, bucket_len_f()) <= sum_start + merged@.len());
            assert(terms@.subrange(0, t + 1) =~= terms@.subrange(0, t as int).push(
                terms@[t as int],
            ));
            lemma_sum_push(terms@.subrange(0, t as int), key_bytes_f(ssv), terms@[t as int]);
        }
        t = t + 1;
    }
    proof {
        assert(terms@.subrange(0, n as int) =~= terms@);
        if buckets@.len() > 0x400000 {
            lemma_bucket_lb(buckets@, 0x400000);
            assert(false);
        }
    }
    buckets
}

/// Handle `h` names exactly `content` within the vector arena `vd`, with
/// the empty list always at `{0, 0}`.
pub open spec fn handle_content(vd: Seq<u32>, h: VecHandle, content: Seq<u32>) -> bool {
    &&& h.offset + h.length <= vd.len()
    &&& h.length == content.len()
    &&& vd.subrange(h.offset as int, h.offset + h.length) == content
    &&& (content.len() == 0 ==> h == (VecHandle { offset: 0, length: 0 }))
}

/// A handle's content survives appending to the arena.
proof fn lemma_handle_stable(vd1: Seq<u32>, vd2: Seq<u32>, h: VecHandle, content: Seq<u32>)
    requires
        handle_content(vd1, h, content),
        vd1.len() <= vd2.len(),
        forall|i: int| 0 <= i < vd1.len() ==> #[trigger] vd2[i] == vd1[i],
    ensures
        handle_content(vd2, h, content),
{
    assert(vd2.subrange(h.offset as int, h.offset + h.length) =~= vd1.subrange(
        h.offset as int,
        h.offset + h.length,
    ));
}

/// Kanji stat pairs flattened: the tag handle at even positions, the value
/// string handle at odd positions.
pub open spec fn flat_pairs(s: Seq<(u32, u32)>) -> Seq<u32> {
    Seq::new(
        2 * s.len(),
        |i: int|
            if i % 2 == 0 {
                s[i / 2].0
            } else {
                s[i / 2].1
            },
    )
}

/// The raw form of a registered tag.
pub open spec fn tag_matches(raw: crate::raw::TagRaw, data: TagData) -> bool {
    raw.name == data.name && raw.category == data.category && raw.order == data.order as u32
        && raw.notes == data.notes
}

/// The raw form of a pushed term within model `m`.
pub open spec fn term_matches(m: crate::db::DbModel, raw: crate::raw::TermRaw, data: TermData) -> bool {
    &&& raw.expression == data.expression
    &&& raw.reading == data.reading
    &&& raw.search_key == data.search_key
    &&& raw.score == data.score as u32
    &&& raw.sequence == data.sequence
    &&& raw.frequency == data.frequency
    &&& raw.source == data.source
    &&& m.vecv(raw.glossary) == data.glossary@
    &&& m.vecv(raw.rules) == data.rules@
    &&& m.vecv(raw.term_tags) == data.term_tags@
    &&& m.vecv(raw.definition_tags) == data.definition_tags@
    &&& (data.glossary@.len() == 0 ==> raw.glossary == (VecHandle { offset: 0, length: 0 }))
    &&& (data.rules@.len() == 0 ==> raw.rules == (VecHandle { offset: 0, length: 0 }))
    &&& (data.term_tags@.len() == 0 ==> raw.term_tags == (VecHandle { offset: 0, length: 0 }))
    &&& (data.definition_tags@.len() == 0 ==> raw.definition_tags == (VecHandle {
        offset: 0,
        length: 0,
    }))
}

/// The raw form of a pushed kanji within model `m`.
pub open spec fn kanji_matches(m: crate::db::DbModel, raw: crate::raw::KanjiRaw, data: KanjiData) -> bool {
    &&& raw.character == data.character
    &&& raw.frequency == data.frequency
    &&& raw.source == data.source
    &&& m.vecv(raw.meanings) == data.meanings@
    &&& m.vecv(raw.onyomi) == data.onyomi@
    &&& m.vecv(raw.kunyomi) == data.kunyomi@
    &&& m.vecv(raw.tags) == data.tags@
    &&& m.vecv(raw.stats) == flat_pairs(data.stats@)
    &&& (data.meanings@.len() == 0 ==> raw.meanings == (VecHandle { offset: 0, length: 0 }))
    &&& (data.onyomi@.len() == 0 ==> raw.onyomi == (VecHandle { offset: 0, length: 0 }))
    &&& (data.kunyomi@.len() == 0 ==> raw.kunyomi == (VecHandle { offset: 0, length: 0 }))
    &&& (data.tags@.len() == 0 ==> raw.tags == (VecHandle { offset: 0, length: 0 }))
    &&& (data.stats@.len() == 0 ==> raw.stats == (VecHandle { offset: 0, length: 0 }))
}

/// How an emitted model relates to the builder state it came from: the
/// interned strings are a prefix of the string table, tags keep their
/// order, record `i` of the term and kanji tables is the stable relevance
/// sort of the pushed records at `i` (so ties keep push order), and the two
/// key indexes hold one row per non-empty key of each term.
pub open spec fn model_realizes(
    m: crate::db::DbModel,
    strings: Seq<Seq<u8>>,
    tags: Seq<TagData>,
    terms: Seq<TermData>,
    kanji: Seq<KanjiData>,
) -> bool {
    &&& m.string_list.len() >= strings.len()
    &&& forall|h: u32| h < strings.len() ==> #[trigger] m.strv(h) == strings[h as int]
    &&& m.tags.len() == tags.len()
    &&& forall|i: int| 0 <= i < tags.len() ==> tag_matches(#[trigger] m.tags[i], tags[i])
    &&& m.terms.len() == terms.len()
    &&& m.index_prefix_jp.len() == sum_of(terms, rows_per_term_f())
    &&& m.index_suffix_jp.len() == sum_of(terms, rows_per_term_f())
    &&& forall|i: int|
        0 <= i < m.terms.len() ==> term_matches(
            m,
            #[trigger] m.terms[i],
            stable_sort_terms(terms)[i],
        )
    &&& m.kanji.len() == kanji.len()
    &&& forall|i: int|
        0 <= i < m.kanji.len() ==> kanji_matches(
            m,
            #[trigger] m.kanji[i],
            stable_sort_kanji(kanji)[i],
        )
}

/// Converts the registered tags to their raw form.
#[verifier::loop_isolation(false)]
fn pack_tags(tags: &Vec<TagData>) -> (r: Vec<crate::raw::TagRaw>)
    ensures
        r@.len() == tags@.len(),
        forall|i: int| 0 <= i < r@.len() ==> tag_matches(#[trigger] r@[i], tags@[i]),
{
    let n = tags.len();
    let mut out: Vec<crate::raw::TagRaw> = Vec::new();
    let mut i: usize = 0;
    while i < n
        invariant
            0 <= i <= n,
            n == tags@.len(),
            out@.len() == i,
            forall|k: int| 0 <= k < i ==> tag_matches(#[trigger] out@[k], tags@[k]),
        decreases n - i,
    {
        let t = &tags[i];
        out.push(
            crate::raw::TagRaw {
                name: t.name,
                category: t.category,
                order: crate::raw::RawInt32 { value: t.order }.to_bits(),
                notes: t.notes,
            },
        );
        i = i + 1;
    }
    out
}

/// Packs the sorted terms, flattening their lists into the vector arena.
#[verifier::loop_isolation(false)]
fn pack_terms(terms: &Vec<TermData>, vector_data: &mut Vec<u32>) -> (r: Result<
    Vec<crate::raw::TermRaw>,
    DbError,
>)
    requires
        old(vector_data)@.len() <= u32::MAX,
    ensures
        final(vector_data)@.len() <= u32::MAX,
        old(vector_data)@.len() <= final(vector_data)@.len(),
        forall|i: int|
            0 <= i < old(vector_data)@.len() ==> #[trigger] final(vector_data)@[i] == old(
                vector_data,
            )@[i],
        r matches Err(e) ==> e == DbError::Capacity,
        old(vector_data)@.len() + sum_of(terms@, term_words_f()) <= u32::MAX ==> r is Ok,
        r is Ok ==> final(vector_data)@.len() == old(vector_data)@.len() + sum_of(
            terms@,
            term_words_f(),
        ),
        r matches Ok(tr) ==> tr@.len() == terms@.len() && forall|i: int|
            0 <= i < tr@.len() ==> (#[trigger] tr@[i]).expression == terms@[i].expression
                && tr@[i].reading == terms@[i].reading && tr@[i].search_key
                == terms@[i].search_key && tr@[i].score == terms@[i].score as u32
                && tr@[i].sequence == terms@[i].sequence && tr@[i].frequency
                == terms@[i].frequency && tr@[i].source == terms@[i].source && handle_content(
                final(vector_data)@,
                tr@[i].glossary,
                terms@[i].glossary@,
            ) && handle_content(final(vector_data)@, tr@[i].rules, terms@[i].rules@)
                && handle_content(final(vector_data)@, tr@[i].term_tags, terms@[i].term_tags@)
                && handle_content(
                final(vector_data)@,
                tr@[i].definition_tags,
                terms@[i].definition_tags@,
            ),
{
    let n = terms.len();
    let mut out: Vec<crate::raw::TermRaw> = Vec::new();
    let mut i: usize = 0;
    while i < n
        invariant
            0 <= i <= n,
            n == terms@.len(),
            out@.len() == i,
            vector_data@.len() <= u32::MAX,
            old(vector_data)@.len() <= vector_data@.len(),
            vector_data@.len() == old(vector_data)@.len() + sum_of(
                terms@.subrange(0, i as int),
                term_words_f(),
            ),
            forall|q: int|
                0 <= q < old(vector_data)@.len() ==> #[trigger] vector_data@[q] == old(
                    vector_data,
                )@[q],
            forall|k: int|
                0 <= k < i ==> (#[trigger] out@[k]).expression == terms@[k].expression
                    && out@[k].reading == terms@[k].reading && out@[k].search_key
                    == terms@[k].search_key && out@[k].score == terms@[k].score as u32
                    && out@[k].sequence == terms@[k].sequence && out@[k].frequency
                    == terms@[k].frequency && out@[k].source == terms@[k].source
                    && handle_content(vector_data@, out@[k].glossary, terms@[k].glossary@)
                    && handle_content(vector_data@, out@[k].rules, terms@[k].rules@)
                    && handle_content(vector_data@, out@[k].term_tags, terms@[k].term_tags@)
                    && handle_content(
                    vector_data@,
                    out@[k].definition_tags,
                    terms@[k].definition_tags@,
                ),
        decreases n - i,
    {
        let t = &terms[i];
        let ghost vd0 = vector_data@;
        proof {
            assert(forall|x: TermData| #[trigger] term_words_f()(x) >= 0);
            lemma_sum_prefix_le(terms@, term_words_f(), i as int);
            assert(terms@.subrange(0, i + 1) =~= terms@.subrange(0, i as int).push(
                terms@[i as int],
            ));
            lemma_sum_push(terms@.subrange(0, i as int), term_words_f(), terms@[i as int]);
            lemma_sum_prefix_le(terms@, term_words_f(), i + 1);
        }
        let glossary = match push_list(vector_data, &t.glossary) {
            Ok(h) => h,
            Err(e) => {
                return Err(e);
            },
        };
        let ghost vd1 = vector_data@;
        let rules = match push_list(vector_data, &t.rules) {
            Ok(h) => h,
            Err(e) => {
                return Err(e);
            },
        };
        let ghost vd2 = vector_data@;
        let term_tags = match push_list(vector_data, &t.term_tags) {
            Ok(h) => h,
            Err(e) => {
                return Err(e);
            },
        };
        let ghost vd3 = vector_data@;
        let definition_tags = match push_list(vector_data, &t.definition_tags) {
            Ok(h) => h,
            Err(e) => {
                return Err(e);
            },
        };
        proof {
            lemma_handle_stable(vd1, vector_data@, glossary, terms@[i as int].glossary@);
            lemma_handle_stable(vd2, vector_data@, rules, terms@[i as int].rules@);
            lemma_handle_stable(vd3, vector_data@, term_tags, terms@[i as int].term_tags@);
            assert forall|k: int|
                0 <= k < i implies handle_content(
                vector_data@,
                (#[trigger] out@[k]).glossary,
                terms@[k].glossary@,
            ) && handle_content(vector_data@, out@[k].rules, terms@[k].rules@)
                && handle_content(vector_data@, out@[k].term_tags, terms@[k].term_tags@)
                && handle_content(
                vector_data@,
                out@[k].definition_tags,
                terms@[k].definition_tags@,
            ) by {
                lemma_handle_stable(vd0, vector_data@, out@[k].glossary, terms@[k].glossary@);
                lemma_handle_stable(vd0, vector_data@, out@[k].rules, terms@[k].rules@);
                lemma_handle_stable(vd0, vector_data@, out@[k].term_tags, terms@[k].term_tags@);
                lemma_handle_stable(
                    vd0,
                    vector_data@,
                    out@[k].definition_tags,
                    terms@[k].definition_tags@,
                );
            }
        }
        out.push(
            crate::raw::TermRaw {
                expression: t.expression,
                reading: t.reading,
                search_key: t.search_key,
                score: crate::raw::RawInt32 { value: t.score }.to_bits(),
                sequence: t.sequence,
                frequency: t.frequency,
                source: t.source,
                glossary,
                rules,
                term_tags,
                definition_tags,
            },
        );
        i = i + 1;
    }
    proof {
        assert(terms@.subrange(0, n as int) =~= terms@);
    }
    Ok(out)
}

/// Packs the sorted kanji, flattening their lists and stat pairs into the
/// vector arena.
#[verifier::loop_isolation(false)]
#[verifier::rlimit(100)]
fn pack_kanji(kanji: &Vec<KanjiData>, vector_data: &mut Vec<u32>) -> (r: Result<
    Vec<crate::raw::KanjiRaw>,
    DbError,
>)
    requires
        old(vector_data)@.len() <= u32::MAX,
    ensures
        final(vector_data)@.len() <= u32::MAX,
        old(vector_data)@.len() <= final(vector_data)@.len(),
        forall|i: int|
            0 <= i < old(vector_data)@.len() ==> #[trigger] final(vector_data)@[i] == old(
                vector_data,
            )@[i],
        r matches Err(e) ==> e == DbError::Capacity,
        old(vector_data)@.len() + sum_of(kanji@, kanji_words_f()) <= u32::MAX ==> r is Ok,
        r is Ok ==> final(vector_data)@.len() == old(vector_data)@.len() + sum_of(
            kanji@,
            kanji_words_f(),
        ),
        r matches Ok(kr) ==> kr@.len() == kanji@.len() && forall|i: int|
            0 <= i < kr@.len() ==> (#[trigger] kr@[i]).character == kanji@[i].character
                && kr@[i].frequency == kanji@[i].frequency && kr@[i].source == kanji@[i].source
                && handle_content(final(vector_data)@, kr@[i].meanings, kanji@[i].meanings@)
                && handle_content(final(vector_data)@, kr@[i].onyomi, kanji@[i].onyomi@)
                && handle_content(final(vector_data)@, kr@[i].kunyomi, kanji@[i].kunyomi@)
                && handle_content(final(vector_data)@, kr@[i].tags, kanji@[i].tags@)
                && handle_content(
                final(vector_data)@,
                kr@[i].stats,
                flat_pairs(kanji@[i].stats@),
            ),
{
    let n = kanji.len();
    let mut out: Vec<crate::raw::KanjiRaw> = Vec::new();
    let mut i: usize = 0;
    while i < n
        invariant
            0 <= i <= n,
            n == kanji@.len(),
            out@.len() == i,
            vector_data@.len() <= u32::MAX,
            old(vector_data)@.len() <= vector_data@.len(),
            vector_data@.len() == old(vector_data)@.len() + sum_of(
                kanji@.subrange(0, i as int),
                kanji_words_f(),
            ),
            forall|q: int|
                0 <= q < old(vector_data)@.len() ==> #[trigger] vector_data@[q] == old(
                    vector_data,
                )@[q],
            forall|k: int|
                0 <= k < i ==> (#[trigger] out@[k]).character == kanji@[k].character
                    && out@[k].frequency == kanji@[k].frequency && out@[k].source
                    == kanji@[k].source && handle_content(
                    vector_data@,
                    out@[k].meanings,
                    kanji@[k].meanings@,
                ) && handle_content(vector_data@, out@[k].onyomi, kanji@[k].onyomi@)
                    && handle_content(vector_data@, out@[k].kunyomi, kanji@[k].kunyomi@)
                    && handle_content(vector_data@, out@[k].tags, kanji@[k].tags@)
                    && handle_content(vector_data@, out@[k].stats, flat_pairs(kanji@[k].stats@)),
        decreases n - i,
    {
        let k = &kanji[i];
        proof {
            assert(forall|x: KanjiData| #[trigger] kanji_words_f()(x) >= 0);
            lemma_sum_prefix_le(kanji@, kanji_words_f(), i as int);
            assert(kanji@.subrange(0, i + 1) =~= kanji@.subrange(0, i as int).push(
                kanji@[i as int],
            ));
            lemma_sum_push(kanji@.subrange(0, i as int), kanji_words_f(), kanji@[i as int]);
            lemma_sum_prefix_le(kanji@, kanji_words_f(), i + 1);
        }
        let mut sv: Vec<u32> = Vec::new();
        let pairs = k.stats.len();
        let mut j: usize = 0;
        while j < pairs
            invariant
                0 <= j <= pairs,
                pairs == k.stats@.len(),
                sv@ =~= flat_pairs(k.stats@).subrange(0, 2 * j),
            decreases pairs - j,
        {
            let pair = k.stats[j];
            sv.push(pair.0);
            sv.push(pair.1);
            proof {
                assert((2 * j) % 2 == 0 && (2 * j + 1) % 2 == 1);
                assert((2 * j) / 2 == j && (2 * j + 1) / 2 == j);
                assert(sv@ =~= flat_pairs(k.stats@).subrange(0, 2 * (j + 1)));
            }
            j = j + 1;
        }
        proof {
            assert(sv@ =~= flat_pairs(k.stats@));
        }
        let ghost vd0 = vector_data@;
        let meanings = match push_list(vector_data, &k.meanings) {
            Ok(h) => h,
            Err(e) => {
                return Err(e);
            },
        };
        let ghost vd1 = vector_data@;
        let onyomi = match push_list(vector_data, &k.onyomi) {
            Ok(h) => h,
            Err(e) => {
                return Err(e);
            },
        };
        let ghost vd2 = vector_data@;
        let kunyomi = match push_list(vector_data, &k.kunyomi) {
            Ok(h) => h,
            Err(e) => {
                return Err(e);
            },
        };
        let ghost vd3 = vector_data@;
        let tags = match push_list(vector_data, &k.tags) {
            Ok(h) => h,
            Err(e) => {
                return Err(e);
            },
        };
        let ghost vd4 = vector_data@;
        let stats = match push_list(vector_data, &sv) {
            Ok(h) => h,
            Err(e) => {
                return Err(e);
            },
        };
        proof {
            lemma_handle_stable(vd1, vector_data@, meanings, kanji@[i as int].meanings@);
            lemma_handle_stable(vd2, vector_data@, onyomi, kanji@[i as int].onyomi@);
            lemma_handle_stable(vd3, vector_data@, kunyomi, kanji@[i as int].kunyomi@);
            lemma_handle_stable(vd4, vector_data@, tags, kanji@[i as int].tags@);
            assert(handle_content(vector_data@, stats, flat_pairs(kanji@[i as int].stats@)));
            assert forall|q: int|
                0 <= q < i implies handle_content(
                vector_data@,
                (#[trigger] out@[q]).meanings,
                kanji@[q].meanings@,
            ) && handle_content(vector_data@, out@[q].onyomi, kanji@[q].onyomi@)
                && handle_content(vector_data@, out@[q].kunyomi, kanji@[q].kunyomi@)
                && handle_content(vector_data@, out@[q].tags, kanji@[q].tags@)
                && handle_content(vector_data@, out@[q].stats, flat_pairs(kanji@[q].stats@)) by {
                lemma_handle_stable(vd0, vector_data@, out@[q].meanings, kanji@[q].meanings@);
                lemma_handle_stable(vd0, vector_data@, out@[q].onyomi, kanji@[q].onyomi@);
                lemma_handle_stable(vd0, vector_data@, out@[q].kunyomi, kanji@[q].kunyomi@);
                lemma_handle_stable(vd0, vector_data@, out@[q].tags, kanji@[q].tags@);
                lemma_handle_stable(vd0, vector_data@, out@[q].stats, flat_pairs(kanji@[q].stats@));
            }
        }
        out.push(
            crate::raw::KanjiRaw {
                character: k.character,
                frequency: k.frequency,
                source: k.source,
                meanings,
                onyomi,
                kunyomi,
                tags,
                stats,
            },
        );
        i = i + 1;
    }
    proof {
        assert(kanji@.subrange(0, n as int) =~= kanji@);
    }
    Ok(out)
}

/// Packs the character buckets into rows over the vector arena.
#[verifier::loop_isolation(false)]
fn pack_chars(buckets: &Vec<(u32, Vec<u32>)>, vector_data: &mut Vec<u32>) -> (r: Result<
    Vec<crate::raw::CharIndex>,
    DbError,
>)
    requires
        old(vector_data)@.len() <= u32::MAX,
    ensures
        final(vector_data)@.len() <= u32::MAX,
        old(vector_data)@.len() <= final(vector_data)@.len(),
        forall|i: int|
            0 <= i < old(vector_data)@.len() ==> #[trigger] final(vector_data)@[i] == old(
                vector_data,
            )@[i],
        r matches Err(e) ==> e == DbError::Capacity,
        old(vector_data)@.len() + sum_of(buckets@, bucket_len_f()) <= u32::MAX ==> r is Ok,
        r matches Ok(cr) ==> cr@.len() == buckets@.len() && forall|i: int|
            0 <= i < cr@.len() ==> (#[trigger] cr@[i]).character == buckets@[i].0
                && handle_content(final(vector_data)@, cr@[i].indexes, buckets@[i].1@),
{
    let n = buckets.len();
    let mut out: Vec<crate::raw::CharIndex> = Vec::new();
    let mut i: usize = 0;
    while i < n
        invariant
            0 <= i <= n,
            n == buckets@.len(),
            out@.len() == i,
            vector_data@.len() <= u32::MAX,
            old(vector_data)@.len() <= vector_data@.len(),
            vector_data@.len() == old(vector_data)@.len() + sum_of(
                buckets@.subrange(0, i as int),
                bucket_len_f(),
            ),
            forall|q: int|
                0 <= q < old(vector_data)@.len() ==> #[trigger] vector_data@[q] == old(
                    vector_data,
                )@[q],
            forall|k: int|
                0 <= k < i ==> (#[trigger] out@[k]).character == buckets@[k].0 && handle_content(
                    vector_data@,
                    out@[k].indexes,
                    buckets@[k].1@,
                ),
        decreases n - i,
    {
        let ghost vd0 = vector_data@;
        proof {
            assert(forall|x: (u32, Vec<u32>)| #[trigger] bucket_len_f()(x) >= 0);
            lemma_sum_prefix_le(buckets@, bucket_len_f(), i as int);
            assert(buckets@.subrange(0, i + 1) =~= buckets@.subrange(0, i as int).push(
                buckets@[i as int],
            ));
            lemma_sum_push(buckets@.subrange(0, i as int), bucket_len_f(), buckets@[i as int]);
            lemma_sum_prefix_le(buckets@, bucket_len_f(), i + 1);
        }
        let indexes = match push_list(vector_data, &buckets[i].1) {
            Ok(h) => h,
            Err(e) => {
                return Err(e);
            },
        };
        proof {
            assert forall|q: int|
                0 <= q < i implies handle_content(
                vector_data@,
                (#[trigger] out@[q]).indexes,
                buckets@[q].1@,
            ) by {
                lemma_handle_stable(vd0, vector_data@, out@[q].indexes, buckets@[q].1@);
            }
        }
        out.push(crate::raw::CharIndex { character: buckets[i].0, indexes });
        i = i + 1;
    }
    proof {
        assert(buckets@.subrange(0, n as int) =~= buckets@);
    }
    Ok(out)
}

/// Packs the interned strings into the contiguous byte arena and its handle
/// list.
#[verifier::loop_isolation(false)]
fn pack_strings(strings: &Vec<Vec<u8>>) -> (r: Result<
    (Vec<u8>, Vec<crate::raw::StrHandle>),
    DbError,
>)
    requires
        strings@.len() <= u32::MAX,
        strings@.len() >= 1,
        strings@[0]@.len() == 0,
    ensures
        r matches Err(e) ==> e == DbError::Capacity,
        sum_of(Seq::new(strings@.len(), |i: int| strings@[i]@), strlen_f()) <= u32::MAX ==> r
            is Ok,
        r matches Ok((data, list)) ==> {
            &&& list@.len() == strings@.len()
            &&& data@.len() <= u32::MAX
            &&& list@[0] == (crate::raw::StrHandle { offset: 0, length: 0 })
            &&& forall|i: int|
                0 <= i < list@.len() ==> (#[trigger] list@[i]).offset + list@[i].length
                    <= data@.len() && data@.subrange(
                    list@[i].offset as int,
                    list@[i].offset + list@[i].length,
                ) == strings@[i]@
        },
{
    let n = strings.len();
    let mut data: Vec<u8> = Vec::new();
    let mut list: Vec<crate::raw::StrHandle> = Vec::new();
    let mut i: usize = 0;
    while i < n
        invariant
            0 <= i <= n,
            n == strings@.len(),
            list@.len() == i,
            data@.len() <= u32::MAX,
            i == 0 ==> data@.len() == 0,
            data@.len() == sum_of(
                Seq::new(strings@.len(), |z: int| strings@[z]@).subrange(0, i as int),
                strlen_f(),
            ),
            i >= 1 ==> list@[0] == (crate::raw::StrHandle { offset: 0, length: 0 }),
            forall|k: int|
                0 <= k < i ==> (#[trigger] list@[k]).offset + list@[k].length <= data@.len()
                    && data@.subrange(list@[k].offset as int, list@[k].offset + list@[k].length)
                    == strings@[k]@,
        decreases n - i,
    {
        let s = &strings[i];
        let s_len = s.len();
        let off = data.len();
        proof {
            let ssv = Seq::new(strings@.len(), |z: int| strings@[z]@);
            assert(forall|x: Seq<u8>| #[trigger] strlen_f()(x) >= 0);
            assert(ssv.subrange(0, i + 1) =~= ssv.subrange(0, i as int).push(ssv[i as int]));
            lemma_sum_push(ssv.subrange(0, i as int), strlen_f(), ssv[i as int]);
            lemma_sum_prefix_le(ssv, strlen_f(), i + 1);
            assert(ssv[i as int] == strings@[i as int]@);
        }
        if s_len > u32::MAX as usize - off {
            return Err(DbError::Capacity);
        }
        let ghost data0 = data@;
        let mut j: usize = 0;
        while j < s_len
            invariant
                0 <= j <= s_len,
                s_len == s@.len(),
                data@ == data0 + s@.subrange(0, j as int),
            decreases s_len - j,
        {
            data.push(s[j]);
            proof {
                assert(data@ =~= data0 + s@.subrange(0, j + 1));
            }
            j = j + 1;
        }
        proof {
            assert(s@.subrange(0, s@.len() as int) =~= s@);
            assert(data@.subrange(off as int, off + s@.len()) =~= s@);
            assert(forall|q: int| 0 <= q < data0.len() ==> #[trigger] data@[q] == data0[q]);
            assert forall|k: int|
                0 <= k < i implies (#[trigger] list@[k]).offset + list@[k].length <= data@.len()
                && data@.subrange(list@[k].offset as int, list@[k].offset + list@[k].length)
                == strings@[k]@ by {
                assert(data@.subrange(list@[k].offset as int, list@[k].offset + list@[k].length)
                    =~= data0.subrange(list@[k].offset as int, list@[k].offset + list@[k].length));
            }
        }
        list.push(crate::raw::StrHandle { offset: off as u32, length: s_len as u32 });
        i = i + 1;
    }
    proof {
        let ssv = Seq::new(strings@.len(), |z: int| strings@[z]@);
        assert(ssv.subrange(0, n as int) =~= ssv);
    }
    Ok((data, list))
}

/// Transfers membership across a permutation.
proof fn lemma_contains_via_multiset<T>(a: Seq<T>, b: Seq<T>, x: T)
    requires
        a.to_multiset() == b.to_multiset(),
        a.contains(x),
    ensures
        b.contains(x),
{
    broadcast use vstd::seq_lib::to_multiset_contains;

    assert(a.to_multiset().count(x) > 0);
    assert(b.to_multiset().count(x) > 0);
}


/// The packed records satisfy the record invariants of the model.
#[verifier::rlimit(100)]
#[verifier::spinoff_prover]
proof fn lemma_valid_records(
    m: crate::db::DbModel,
    ss0: Seq<Seq<u8>>,
    ss2: Seq<Seq<u8>>,
    tags0: Seq<TagData>,
    sorted_terms: Seq<TermData>,
    sorted_kanji: Seq<KanjiData>,
)
    requires
        1 <= ss0.len(),
        ss0[0].len() == 0,
        ss0.len() <= ss2.len(),
        ss2.len() <= u32::MAX,
        forall|i: int| 0 <= i < ss0.len() ==> #[trigger] ss2[i] == ss0[i],
        m.string_list.len() == ss2.len(),
        forall|h: u32| h < ss2.len() ==> #[trigger] m.strv(h) == ss2[h as int],
        m.string_list[0] == (crate::raw::StrHandle { offset: 0, length: 0 }),
        forall|i: int| 0 <= i < m.string_list.len() ==> m.str_entry_ok(i),
        forall|i: int| 1 <= i < ss2.len() ==> (#[trigger] ss2[i]).len() > 0,
        forall|i: int| 0 <= i < tags0.len() ==> tag_data_ok(ss0.len() as int, #[trigger] tags0[i]),
        forall|k: int|
            0 <= k < sorted_terms.len() ==> term_data_ok(
                ss0.len() as int,
                tags0.len() as int,
                #[trigger] sorted_terms[k],
            ),
        forall|k: int|
            0 <= k < sorted_kanji.len() ==> kanji_data_ok(
                ss0.len() as int,
                tags0.len() as int,
                #[trigger] sorted_kanji[k],
            ),
        terms_sorted_data(sorted_terms),
        kanji_sorted_data(sorted_kanji),
        m.tags.len() == tags0.len(),
        forall|i: int| 0 <= i < m.tags.len() ==> tag_matches(#[trigger] m.tags[i], tags0[i]),
        m.terms.len() == sorted_terms.len(),
        forall|i: int|
            0 <= i < m.terms.len() ==> term_matches(m, #[trigger] m.terms[i], sorted_terms[i]),
        forall|i: int|
            0 <= i < m.terms.len() ==> handle_content(
                m.vector_data,
                (#[trigger] m.terms[i]).glossary,
                sorted_terms[i].glossary@,
            ) && handle_content(m.vector_data, m.terms[i].rules, sorted_terms[i].rules@)
                && handle_content(m.vector_data, m.terms[i].term_tags, sorted_terms[i].term_tags@)
                && handle_content(
                m.vector_data,
                m.terms[i].definition_tags,
                sorted_terms[i].definition_tags@,
            ),
        m.kanji.len() == sorted_kanji.len(),
        forall|i: int|
            0 <= i < m.kanji.len() ==> kanji_matches(m, #[trigger] m.kanji[i], sorted_kanji[i]),
        forall|i: int|
            0 <= i < m.kanji.len() ==> handle_content(
                m.vector_data,
                (#[trigger] m.kanji[i]).meanings,
                sorted_kanji[i].meanings@,
            ) && handle_content(m.vector_data, m.kanji[i].onyomi, sorted_kanji[i].onyomi@)
                && handle_content(m.vector_data, m.kanji[i].kunyomi, sorted_kanji[i].kunyomi@)
                && handle_content(m.vector_data, m.kanji[i].tags, sorted_kanji[i].tags@)
                && handle_content(
                m.vector_data,
                m.kanji[i].stats,
                flat_pairs(sorted_kanji[i].stats@),
            ),
    ensures
        m.strings_ok(),
        m.tags_ok(),
        m.terms_ok(),
        m.kanji_ok(),
        m.terms_sorted(),
        m.kanji_sorted(),
{
    assert(m.strings_ok()) by {
        assert forall|i: int|
            1 <= i < m.string_list.len() implies (#[trigger] m.string_list[i]).length > 0 by {
            assert(m.str_entry_ok(i));
            assert(0 <= i <= u32::MAX);
            assert((i as u32) as int == i);
            assert(m.strv(i as u32) == ss2[i]);
            assert(m.strv(i as u32).len() == m.string_list[i].length);
        }
    }
    assert(m.tags_ok());
    assert(m.terms_ok()) by {
        assert forall|i: int| 0 <= i < m.terms.len() implies m.term_ok(#[trigger] m.terms[i]) by {
            assert(term_data_ok(ss0.len() as int, tags0.len() as int, sorted_terms[i]));
            assert(term_matches(m, m.terms[i], sorted_terms[i]));
            assert(handle_content(m.vector_data, m.terms[i].glossary, sorted_terms[i].glossary@));
            assert(handle_content(m.vector_data, m.terms[i].rules, sorted_terms[i].rules@));
            assert(handle_content(m.vector_data, m.terms[i].term_tags, sorted_terms[i].term_tags@));
            assert(handle_content(
                m.vector_data,
                m.terms[i].definition_tags,
                sorted_terms[i].definition_tags@,
            ));
        }
    }
    assert(m.kanji_ok()) by {
        assert forall|i: int| 0 <= i < m.kanji.len() implies m.kanji_rec_ok(
            #[trigger] m.kanji[i],
        ) by {
            assert(kanji_data_ok(ss0.len() as int, tags0.len() as int, sorted_kanji[i]));
            assert(kanji_matches(m, m.kanji[i], sorted_kanji[i]));
            assert(handle_content(m.vector_data, m.kanji[i].meanings, sorted_kanji[i].meanings@));
            assert(handle_content(m.vector_data, m.kanji[i].onyomi, sorted_kanji[i].onyomi@));
            assert(handle_content(m.vector_data, m.kanji[i].kunyomi, sorted_kanji[i].kunyomi@));
            assert(handle_content(m.vector_data, m.kanji[i].tags, sorted_kanji[i].tags@));
            assert(handle_content(
                m.vector_data,
                m.kanji[i].stats,
                flat_pairs(sorted_kanji[i].stats@),
            ));
            let st = m.vecv(m.kanji[i].stats);
            assert(st == flat_pairs(sorted_kanji[i].stats@));
            assert(st.len() % 2 == 0);
            assert(forall|j: int|
                0 <= j < st.len() && j % 2 == 0 ==> #[trigger] st[j] < m.tags.len());
            assert(forall|j: int| 0 <= j < st.len() && j % 2 == 1 ==> m.str_ok(#[trigger] st[j]));
        }
    }
    assert(m.terms_sorted()) by {
        assert forall|i: int, j: int|
            0 <= i <= j < m.terms.len() implies crate::db::DbModel::rank_ge(
            #[trigger] m.terms[i],
            #[trigger] m.terms[j],
        ) by {
            assert(rank_ge_data(sorted_terms[i], sorted_terms[j]));
            lemma_i32_bits(sorted_terms[i].score);
            lemma_i32_bits(sorted_terms[j].score);
        }
    }
    assert(m.kanji_sorted());
}

/// The sorted prefix rows satisfy the prefix index invariants.
#[verifier::rlimit(100)]
#[verifier::spinoff_prover]
proof fn lemma_valid_prefix(
    m: crate::db::DbModel,
    ss2: Seq<Seq<u8>>,
    sorted_terms: Seq<TermData>,
    rows0: Seq<TermIndex>,
)
    requires
        m.string_list.len() == ss2.len(),
        forall|h: u32| h < ss2.len() ==> #[trigger] m.strv(h) == ss2[h as int],
        m.terms.len() == sorted_terms.len(),
        forall|i: int|
            0 <= i < m.terms.len() ==> term_matches(m, #[trigger] m.terms[i], sorted_terms[i]),
        forall|k: int|
            0 <= k < rows0.len() ==> (#[trigger] rows0[k]).term < sorted_terms.len()
                && data_key_handle(sorted_terms[rows0[k].term as int], rows0[k].key),
        forall|t: int|
            0 <= t < sorted_terms.len() ==> {
                let rec = #[trigger] sorted_terms[t];
                &&& rows0.contains(TermIndex { key: rec.expression, term: t as u32 })
                &&& (rec.reading != 0 ==> rows0.contains(
                    TermIndex { key: rec.reading, term: t as u32 },
                ))
                &&& (rec.search_key != 0 ==> rows0.contains(
                    TermIndex { key: rec.search_key, term: t as u32 },
                ))
            },
        forall|k: int| 0 <= k < rows0.len() ==> (#[trigger] rows0[k]).key < ss2.len(),
        m.index_prefix_jp.to_multiset() == rows0.to_multiset(),
        forall|k: int|
            0 <= k < m.index_prefix_jp.len() ==> rows0.contains(#[trigger] m.index_prefix_jp[k]),
        rows_sorted_by(m.index_prefix_jp, ss2),
    ensures
        m.prefix_rows_ok(),
        m.prefix_sorted(),
        m.prefix_sound(),
        m.prefix_complete(),
{
    assert(m.prefix_rows_ok()) by {
        assert forall|i: int| 0 <= i < m.index_prefix_jp.len() implies m.row_ok(
            #[trigger] m.index_prefix_jp[i],
        ) by {
            assert(rows0.contains(m.index_prefix_jp[i]));
            let w = choose|w: int| 0 <= w < rows0.len() && rows0[w] == m.index_prefix_jp[i];
        }
    }
    assert(m.prefix_sorted()) by {
        assert forall|i: int, j: int|
            0 <= i <= j < m.index_prefix_jp.len() implies crate::order::lex_le(
            m.strv((#[trigger] m.index_prefix_jp[i]).key),
            m.strv((#[trigger] m.index_prefix_jp[j]).key),
        ) by {
            assert(rows0.contains(m.index_prefix_jp[i]));
            let w1 = choose|w: int| 0 <= w < rows0.len() && rows0[w] == m.index_prefix_jp[i];
            assert(rows0.contains(m.index_prefix_jp[j]));
            let w2 = choose|w: int| 0 <= w < rows0.len() && rows0[w] == m.index_prefix_jp[j];
            assert(m.strv(m.index_prefix_jp[i].key) == ss2[m.index_prefix_jp[i].key as int]);
            assert(m.strv(m.index_prefix_jp[j].key) == ss2[m.index_prefix_jp[j].key as int]);
        }
    }
    assert(m.prefix_sound()) by {
        assert forall|i: int|
            0 <= i < m.index_prefix_jp.len() implies crate::db::DbModel::term_key_handle(
            m.terms[(#[trigger] m.index_prefix_jp[i]).term as int],
            m.index_prefix_jp[i].key,
        ) by {
            assert(rows0.contains(m.index_prefix_jp[i]));
            let w = choose|w: int| 0 <= w < rows0.len() && rows0[w] == m.index_prefix_jp[i];
            let t = rows0[w].term as int;
            assert(data_key_handle(sorted_terms[t], rows0[w].key));
            assert(term_matches(m, m.terms[t], sorted_terms[t]));
        }
    }
    assert(m.prefix_complete()) by {
        assert forall|t: int| 0 <= t < m.terms.len() implies {
            let rec = #[trigger] m.terms[t];
            &&& m.has_prefix_row(rec.expression, t)
            &&& (rec.reading != 0 ==> m.has_prefix_row(rec.reading, t))
            &&& (rec.search_key != 0 ==> m.has_prefix_row(rec.search_key, t))
        } by {
            let rec = m.terms[t];
            assert(term_matches(m, rec, sorted_terms[t]));
            assert(rows0.contains(TermIndex { key: sorted_terms[t].expression, term: t as u32 }));
            lemma_contains_via_multiset(
                rows0,
                m.index_prefix_jp,
                TermIndex { key: rec.expression, term: t as u32 },
            );
            let w1 = choose|w: int|
                0 <= w < m.index_prefix_jp.len() && m.index_prefix_jp[w] == (TermIndex {
                    key: rec.expression,
                    term: t as u32,
                });
            assert(m.has_prefix_row(rec.expression, t));
            if rec.reading != 0 {
                assert(rows0.contains(TermIndex { key: sorted_terms[t].reading, term: t as u32 }));
                lemma_contains_via_multiset(
                    rows0,
                    m.index_prefix_jp,
                    TermIndex { key: rec.reading, term: t as u32 },
                );
                let w2 = choose|w: int|
                    0 <= w < m.index_prefix_jp.len() && m.index_prefix_jp[w] == (TermIndex {
                        key: rec.reading,
                        term: t as u32,
                    });
                assert(m.has_prefix_row(rec.reading, t));
            }
            if rec.search_key != 0 {
                assert(rows0.contains(
                    TermIndex { key: sorted_terms[t].search_key, term: t as u32 },
                ));
                lemma_contains_via_multiset(
                    rows0,
                    m.index_prefix_jp,
                    TermIndex { key: rec.search_key, term: t as u32 },
                );
                let w3 = choose|w: int|
                    0 <= w < m.index_prefix_jp.len() && m.index_prefix_jp[w] == (TermIndex {
                        key: rec.search_key,
                        term: t as u32,
                    });
                assert(m.has_prefix_row(rec.search_key, t));
            }
        }
    }
}

/// The sorted suffix rows satisfy the suffix index invariants.
#[verifier::rlimit(100)]
#[verifier::spinoff_prover]
proof fn lemma_valid_suffix(
    m: crate::db::DbModel,
    ss2: Seq<Seq<u8>>,
    sorted_terms: Seq<TermData>,
    rows0: Seq<TermIndex>,
    srows0: Seq<TermIndex>,
)
    requires
        m.string_list.len() == ss2.len(),
        forall|h: u32| h < ss2.len() ==> #[trigger] m.strv(h) == ss2[h as int],
        m.terms.len() == sorted_terms.len(),
        forall|i: int|
            0 <= i < m.terms.len() ==> term_matches(m, #[trigger] m.terms[i], sorted_terms[i]),
        forall|k: int|
            0 <= k < rows0.len() ==> (#[trigger] rows0[k]).term < sorted_terms.len()
                && data_key_handle(sorted_terms[rows0[k].term as int], rows0[k].key),
        forall|t: int|
            0 <= t < sorted_terms.len() ==> {
                let rec = #[trigger] sorted_terms[t];
                &&& rows0.contains(TermIndex { key: rec.expression, term: t as u32 })
                &&& (rec.reading != 0 ==> rows0.contains(
                    TermIndex { key: rec.reading, term: t as u32 },
                ))
                &&& (rec.search_key != 0 ==> rows0.contains(
                    TermIndex { key: rec.search_key, term: t as u32 },
                ))
            },
        forall|k: int| 0 <= k < rows0.len() ==> (#[trigger] rows0[k]).key < ss2.len(),
        srows0.len() == rows0.len(),
        forall|k: int|
            0 <= k < srows0.len() ==> (#[trigger] srows0[k]).term == rows0[k].term
                && srows0[k].key < ss2.len() && ss2[srows0[k].key as int]
                == crate::grapheme::grev(ss2[rows0[k].key as int]),
        m.index_suffix_jp.to_multiset() == srows0.to_multiset(),
        forall|k: int|
            0 <= k < m.index_suffix_jp.len() ==> srows0.contains(#[trigger] m.index_suffix_jp[k]),
        rows_sorted_by(m.index_suffix_jp, ss2),
    ensures
        m.suffix_rows_ok(),
        m.suffix_sorted(),
        m.suffix_sound(),
        m.suffix_complete(),
{
    assert(m.suffix_rows_ok()) by {
        assert forall|i: int| 0 <= i < m.index_suffix_jp.len() implies m.row_ok(
            #[trigger] m.index_suffix_jp[i],
        ) by {
            assert(srows0.contains(m.index_suffix_jp[i]));
            let w = choose|w: int| 0 <= w < srows0.len() && srows0[w] == m.index_suffix_jp[i];
        }
    }
    assert(m.suffix_sorted()) by {
        assert forall|i: int, j: int|
            0 <= i <= j < m.index_suffix_jp.len() implies crate::order::lex_le(
            m.strv((#[trigger] m.index_suffix_jp[i]).key),
            m.strv((#[trigger] m.index_suffix_jp[j]).key),
        ) by {
            assert(srows0.contains(m.index_suffix_jp[i]));
            let w1 = choose|w: int| 0 <= w < srows0.len() && srows0[w] == m.index_suffix_jp[i];
            assert(srows0.contains(m.index_suffix_jp[j]));
            let w2 = choose|w: int| 0 <= w < srows0.len() && srows0[w] == m.index_suffix_jp[j];
            assert(m.strv(m.index_suffix_jp[i].key) == ss2[m.index_suffix_jp[i].key as int]);
            assert(m.strv(m.index_suffix_jp[j].key) == ss2[m.index_suffix_jp[j].key as int]);
        }
    }
    assert(m.suffix_sound()) by {
        assert forall|i: int| 0 <= i < m.index_suffix_jp.len() implies {
            let row = #[trigger] m.index_suffix_jp[i];
            let rec = m.terms[row.term as int];
            ||| m.strv(row.key) == crate::grapheme::grev(m.strv(rec.expression))
            ||| (rec.reading != 0 && m.strv(row.key) == crate::grapheme::grev(
                m.strv(rec.reading),
            ))
            ||| (rec.search_key != 0 && m.strv(row.key) == crate::grapheme::grev(
                m.strv(rec.search_key),
            ))
        } by {
            let row = m.index_suffix_jp[i];
            assert(srows0.contains(row));
            let w = choose|w: int| 0 <= w < srows0.len() && srows0[w] == row;
            let prow = rows0[w];
            let t = prow.term as int;
            assert(data_key_handle(sorted_terms[t], prow.key));
            let rec = m.terms[t];
            assert(term_matches(m, rec, sorted_terms[t]));
            assert(m.strv(row.key) == ss2[row.key as int]);
            assert(ss2[srows0[w].key as int] == crate::grapheme::grev(ss2[prow.key as int]));
            assert(m.strv(prow.key) == ss2[prow.key as int]);
        }
    }
    assert(m.suffix_complete()) by {
        assert forall|t: int| 0 <= t < m.terms.len() implies {
            let rec = #[trigger] m.terms[t];
            &&& m.has_suffix_row(crate::grapheme::grev(m.strv(rec.expression)), t)
            &&& (rec.reading != 0 ==> m.has_suffix_row(
                crate::grapheme::grev(m.strv(rec.reading)),
                t,
            ))
            &&& (rec.search_key != 0 ==> m.has_suffix_row(
                crate::grapheme::grev(m.strv(rec.search_key)),
                t,
            ))
        } by {
            let rec = m.terms[t];
            assert(term_matches(m, rec, sorted_terms[t]));
            assert(rows0.contains(TermIndex { key: sorted_terms[t].expression, term: t as u32 }));
            let w1 = choose|w: int|
                0 <= w < rows0.len() && rows0[w] == (TermIndex {
                    key: rec.expression,
                    term: t as u32,
                });
            assert(ss2[srows0[w1].key as int] == crate::grapheme::grev(
                ss2[rec.expression as int],
            ));
            assert(srows0.contains(srows0[w1]));
            lemma_contains_via_multiset(srows0, m.index_suffix_jp, srows0[w1]);
            let v1 = choose|v: int|
                0 <= v < m.index_suffix_jp.len() && m.index_suffix_jp[v] == srows0[w1];
            assert(m.strv(m.index_suffix_jp[v1].key) == crate::grapheme::grev(
                m.strv(rec.expression),
            ));
            assert(m.has_suffix_row(crate::grapheme::grev(m.strv(rec.expression)), t));
            if rec.reading != 0 {
                let w2 = choose|w: int|
                    0 <= w < rows0.len() && rows0[w] == (TermIndex {
                        key: rec.reading,
                        term: t as u32,
                    });
                assert(ss2[srows0[w2].key as int] == crate::grapheme::grev(
                    ss2[rec.reading as int],
                ));
                assert(srows0.contains(srows0[w2]));
                lemma_contains_via_multiset(srows0, m.index_suffix_jp, srows0[w2]);
                let v2 = choose|v: int|
                    0 <= v < m.index_suffix_jp.len() && m.index_suffix_jp[v] == srows0[w2];
                assert(m.strv(m.index_suffix_jp[v2].key) == crate::grapheme::grev(
                    m.strv(rec.reading),
                ));
                assert(m.has_suffix_row(crate::grapheme::grev(m.strv(rec.reading)), t));
            }
            if rec.search_key != 0 {
                let w3 = choose|w: int|
                    0 <= w < rows0.len() && rows0[w] == (TermIndex {
                        key: rec.search_key,
                        term: t as u32,
                    });
                assert(ss2[srows0[w3].key as int] == crate::grapheme::grev(
                    ss2[rec.search_key as int],
                ));
                assert(srows0.contains(srows0[w3]));
                lemma_contains_via_multiset(srows0, m.index_suffix_jp, srows0[w3]);
                let v3 = choose|v: int|
                    0 <= v < m.index_suffix_jp.len() && m.index_suffix_jp[v] == srows0[w3];
                assert(m.strv(m.index_suffix_jp[v3].key) == crate::grapheme::grev(
                    m.strv(rec.search_key),
                ));
                assert(m.has_suffix_row(crate::grapheme::grev(m.strv(rec.search_key)), t));
            }
        }
    }
}

/// The emitted model realizes the builder state it was packed from.
#[verifier::spinoff_prover]
proof fn lemma_realizes(
    m: crate::db::DbModel,
    ss0: Seq<Seq<u8>>,
    ss2: Seq<Seq<u8>>,
    tags0: Seq<TagData>,
    terms0: Seq<TermData>,
    kanji0: Seq<KanjiData>,
    sorted_terms: Seq<TermData>,
    sorted_kanji: Seq<KanjiData>,
)
    requires
        ss0.len() <= ss2.len(),
        forall|i: int| 0 <= i < ss0.len() ==> #[trigger] ss2[i] == ss0[i],
        m.string_list.len() == ss2.len(),
        forall|h: u32| h < ss2.len() ==> #[trigger] m.strv(h) == ss2[h as int],
        m.tags.len() == tags0.len(),
        forall|i: int| 0 <= i < m.tags.len() ==> tag_matches(#[trigger] m.tags[i], tags0[i]),
        m.terms.len() == sorted_terms.len(),
        sorted_terms.len() == terms0.len(),
        sorted_terms == stable_sort_terms(terms0),
        m.index_prefix_jp.len() == sum_of(sorted_terms, rows_per_term_f()),
        m.index_suffix_jp.len() == sum_of(sorted_terms, rows_per_term_f()),
        forall|i: int|
            0 <= i < m.terms.len() ==> term_matches(m, #[trigger] m.terms[i], sorted_terms[i]),
        m.kanji.len() == sorted_kanji.len(),
        sorted_kanji.len() == kanji0.len(),
        sorted_kanji == stable_sort_kanji(kanji0),
        forall|i: int|
            0 <= i < m.kanji.len() ==> kanji_matches(m, #[trigger] m.kanji[i], sorted_kanji[i]),
    ensures
        model_realizes(m, ss0, tags0, terms0, kanji0),
{
    assert forall|h: u32| h < ss0.len() implies #[trigger] m.strv(h) == ss0[h as int] by {
        assert(m.strv(h) == ss2[h as int]);
        assert(ss2[h as int] == ss0[h as int]);
    }
    lemma_sum_stable_sort_terms(terms0, rows_per_term_f());
}

/// The signed-value round trip through the stored bit pattern.
proof fn lemma_i32_bits(x: i32)
    ensures
        (x as u32) as i32 == x,
{
    assert((x as u32) as i32 == x) by (bit_vector);
}

impl Writer {
    /// Consumes the builder: sorts terms and kanji by relevance, builds the
    /// prefix, suffix and character indexes, packs all lists and strings
    /// into the shared arenas, and emits the blob.
    ///
    /// On success the blob is the encoding of a model that satisfies every
    /// structural invariant of [`crate::db::DbModel::valid`] and realizes the
    /// accumulated builder state.
    #[verifier::loop_isolation(false)]
    #[verifier::rlimit(100)]
    #[verifier::spinoff_prover]
    pub fn write(self) -> (r: Result<Vec<u8>, DbError>)
        requires
            self.wf(),
        ensures
            self.is_full() ==> r is Err,
            r matches Err(e) ==> e == DbError::Capacity,
            r matches Ok(blob) ==> (exists|m: crate::db::DbModel|
                #![auto]
                m.valid() && crate::codec::good(blob@, m) && model_realizes(
                    m,
                    self.strings(),
                    self.tag_items(),
                    self.term_items(),
                    self.kanji_items(),
                )),
            !self.is_full() && self.build_fits() ==> r is Ok,
    {
        let ghost ss0 = self.strings();
        let ghost tags0 = self.tag_items();
        let ghost terms0 = self.term_items();
        let ghost kanji0 = self.kanji_items();
        if self.full {
            return Err(DbError::Capacity);
        }
        let Writer { strings: held, tags, terms, kanji, full } = self;
        let mut strings = held;
        proof {
            assert(ss0 == Seq::new(strings@.len(), |i: int| strings@[i]@));
            assert(tags0 == tags@ && terms0 == terms@ && kanji0 == kanji@);
        }
        let sorted_terms = sort_terms(terms);
        let sorted_kanji = sort_kanji(kanji);
        proof {
            broadcast use vstd::seq_lib::to_multiset_contains;

            assert(forall|k: int|
                0 <= k < sorted_terms@.len() ==> term_data_ok(
                    ss0.len() as int,
                    tags0.len() as int,
                    #[trigger] sorted_terms@[k],
                )) by {
                assert forall|k: int|
                    0 <= k < sorted_terms@.len() implies term_data_ok(
                    ss0.len() as int,
                    tags0.len() as int,
                    #[trigger] sorted_terms@[k],
                ) by {
                    assert(terms0.contains(sorted_terms@[k]));
                    let j = choose|j: int| 0 <= j < terms0.len() && terms0[j] == sorted_terms@[k];
                }
            }
            assert(forall|k: int|
                0 <= k < sorted_kanji@.len() ==> kanji_data_ok(
                    ss0.len() as int,
                    tags0.len() as int,
                    #[trigger] sorted_kanji@[k],
                )) by {
                assert forall|k: int|
                    0 <= k < sorted_kanji@.len() implies kanji_data_ok(
                    ss0.len() as int,
                    tags0.len() as int,
                    #[trigger] sorted_kanji@[k],
                ) by {
                    assert(kanji0.contains(sorted_kanji@[k]));
                    let j = choose|j: int| 0 <= j < kanji0.len() && kanji0[j] == sorted_kanji@[k];
                }
            }
        }
        proof {
            lemma_sum_stable_sort_terms(terms0, term_words_f());
            lemma_sum_stable_sort_terms(terms0, key_bytes_f(ss0));
            lemma_sum_stable_sort_kanji(kanji0, kanji_words_f());
            assert(forall|x: TermData| #[trigger] term_words_f()(x) >= 0);
            assert(forall|x: TermData| #[trigger] key_bytes_f(ss0)(x) >= 0);
            assert(forall|x: KanjiData| #[trigger] kanji_words_f()(x) >= 0);
            lemma_sum_nonneg(sorted_terms@, term_words_f());
            lemma_sum_nonneg(sorted_terms@, key_bytes_f(ss0));
            lemma_sum_nonneg(sorted_kanji@, kanji_words_f());
        }
        let rows0 = build_prefix_rows(&sorted_terms, Ghost(ss0));
        proof {
            assert(forall|k: int|
                0 <= k < rows0@.len() ==> (#[trigger] rows0@[k]).key < strings@.len());
        }
        proof {
            assert forall|k: int| 0 <= k < rows0@.len() implies (#[trigger] rows0@[k]).key
                != 0 by {
                let t = rows0@[k].term as int;
                assert(data_key_handle(sorted_terms@[t], rows0@[k].key));
                assert(term_data_ok(ss0.len() as int, tags0.len() as int, sorted_terms@[t]));
            }
            assert(forall|i: int|
                1 <= i < strings@.len() ==> (#[trigger] strings@[i])@.len() > 0) by {
                assert(forall|i: int|
                    0 <= i < strings@.len() ==> (#[trigger] strings@[i])@ == ss0[i]);
                assert(forall|i: int| 1 <= i < ss0.len() ==> (#[trigger] ss0[i]).len() > 0);
            }
        }
        let srows0 = match build_suffix_rows(&rows0, &mut strings) {
            Ok(v) => v,
            Err(e) => {
                proof {
                    if !self.is_full() && self.build_fits() {
                        assert(ss0.len() + rows0@.len() <= u32::MAX);
                        assert(false);
                    }
                }
                return Err(e);
            },
        };
        let ghost ss2 = Seq::new(strings@.len(), |i: int| strings@[i]@);
        proof {
            assert(ss0.len() <= ss2.len());
            assert(forall|i: int| 0 <= i < ss0.len() ==> #[trigger] ss2[i] == ss0[i]);
            assert(forall|k: int|
                0 <= k < rows0@.len() ==> (#[trigger] rows0@[k]).key < ss2.len());
            assert(forall|k: int|
                0 <= k < srows0@.len() ==> (#[trigger] srows0@[k]).key < ss2.len());
        }
        let rows = sort_rows(rows0, &strings);
        let srows = sort_rows(srows0, &strings);
        let buckets = build_char_buckets(&sorted_terms, &strings);
        if rows.len() > u32::MAX as usize {
            proof {
                if !self.is_full() && self.build_fits() {
                    assert(rows@.len() == rows0@.len());
                    assert(false);
                }
            }
            return Err(DbError::Capacity);
        }
        if srows.len() > u32::MAX as usize {
            proof {
                if !self.is_full() && self.build_fits() {
                    assert(srows@.len() == rows0@.len());
                    assert(false);
                }
            }
            return Err(DbError::Capacity);
        }
        if buckets.len() > u32::MAX as usize {
            proof {
                assert(buckets@.len() <= 0x400000);
                assert(false);
            }
            return Err(DbError::Capacity);
        }
        let tags_raw = pack_tags(&tags);
        let mut vector_data: Vec<u32> = Vec::new();
        let ghost vec_before_terms = vector_data@;
        let terms_raw = match pack_terms(&sorted_terms, &mut vector_data) {
            Ok(v) => v,
            Err(e) => {
                proof {
                    if !self.is_full() && self.build_fits() {
                        assert(vec_before_terms.len() + sum_of(sorted_terms@, term_words_f())
                            <= u32::MAX);
                        assert(false);
                    }
                }
                return Err(e);
            },
        };
        let ghost vd_a = vector_data@;
        let kanji_raw = match pack_kanji(&sorted_kanji, &mut vector_data) {
            Ok(v) => v,
            Err(e) => {
                proof {
                    if !self.is_full() && self.build_fits() {
                        assert(vd_a.len() == sum_of(sorted_terms@, term_words_f()));
                        assert(vd_a.len() + sum_of(sorted_kanji@, kanji_words_f()) <= u32::MAX);
                        assert(false);
                    }
                }
                return Err(e);
            },
        };
        let ghost vd_b = vector_data@;
        proof {
            let ssv2 = Seq::new(strings@.len(), |i: int| strings@[i]@);
            assert(ssv2 =~= ss2);
            assert(forall|i: int|
                0 <= i < sorted_terms@.len() ==> #[trigger] key_bytes_f(ss2)(sorted_terms@[i])
                    == key_bytes_f(ss0)(sorted_terms@[i])) by {
                assert(forall|i: int|
                    0 <= i < sorted_terms@.len() ==> term_data_ok(
                        ss0.len() as int,
                        tags0.len() as int,
                        #[trigger] sorted_terms@[i],
                    ));
            }
            lemma_sum_ptwise_le(sorted_terms@, key_bytes_f(ss2), key_bytes_f(ss0));
            assert(sum_of(buckets@, bucket_len_f()) <= sum_of(sorted_terms@, key_bytes_f(ss0)));
        }
        let char_rows = match pack_chars(&buckets, &mut vector_data) {
            Ok(v) => v,
            Err(e) => {
                proof {
                    if !self.is_full() && self.build_fits() {
                        assert(vd_b.len() == sum_of(sorted_terms@, term_words_f()) + sum_of(
                            sorted_kanji@,
                            kanji_words_f(),
                        ));
                        assert(vd_b.len() + sum_of(buckets@, bucket_len_f()) <= u32::MAX);
                        assert(false);
                    }
                }
                return Err(e);
            },
        };
        proof {
            assert(strings@.len() >= 1);
            assert(strings@[0]@ == ss2[0] && ss2[0] == ss0[0]);
            assert(strings@[0]@.len() == 0);
        }
        let (string_data, string_list) = match pack_strings(&strings) {
            Ok(v) => v,
            Err(e) => {
                proof {
                    if !self.is_full() && self.build_fits() {
                        assert(Seq::new(strings@.len(), |i: int| strings@[i]@) =~= ss2);
                        assert(sum_of(ss2, strlen_f()) <= sum_of(ss0, strlen_f()) + 3 * sum_of(
                            rows0@,
                            row_bytes_f(ss0),
                        ));
                        assert(sum_of(rows0@, row_bytes_f(ss0)) <= sum_of(
                            sorted_terms@,
                            key_bytes_f(ss0),
                        ));
                        assert(sum_of(ss2, strlen_f()) <= u32::MAX);
                        assert(false);
                    }
                }
                return Err(e);
            },
        };
        proof {
            assert forall|i: int|
                0 <= i < terms_raw@.len() implies handle_content(
                vector_data@,
                (#[trigger] terms_raw@[i]).glossary,
                sorted_terms@[i].glossary@,
            ) && handle_content(vector_data@, terms_raw@[i].rules, sorted_terms@[i].rules@)
                && handle_content(
                vector_data@,
                terms_raw@[i].term_tags,
                sorted_terms@[i].term_tags@,
            ) && handle_content(
                vector_data@,
                terms_raw@[i].definition_tags,
                sorted_terms@[i].definition_tags@,
            ) by {
                lemma_handle_stable(
                    vd_a,
                    vector_data@,
                    terms_raw@[i].glossary,
                    sorted_terms@[i].glossary@,
                );
                lemma_handle_stable(vd_a, vector_data@, terms_raw@[i].rules, sorted_terms@[i].rules@);
                lemma_handle_stable(
                    vd_a,
                    vector_data@,
                    terms_raw@[i].term_tags,
                    sorted_terms@[i].term_tags@,
                );
                lemma_handle_stable(
                    vd_a,
                    vector_data@,
                    terms_raw@[i].definition_tags,
                    sorted_terms@[i].definition_tags@,
                );
            }
            assert forall|i: int|
                0 <= i < kanji_raw@.len() implies handle_content(
                vector_data@,
                (#[trigger] kanji_raw@[i]).meanings,
                sorted_kanji@[i].meanings@,
            ) && handle_content(vector_data@, kanji_raw@[i].onyomi, sorted_kanji@[i].onyomi@)
                && handle_content(vector_data@, kanji_raw@[i].kunyomi, sorted_kanji@[i].kunyomi@)
                && handle_content(vector_data@, kanji_raw@[i].tags, sorted_kanji@[i].tags@)
                && handle_content(
                vector_data@,
                kanji_raw@[i].stats,
                flat_pairs(sorted_kanji@[i].stats@),
            ) by {
                lemma_handle_stable(
                    vd_b,
                    vector_data@,
                    kanji_raw@[i].meanings,
                    sorted_kanji@[i].meanings@,
                );
                lemma_handle_stable(
                    vd_b,
                    vector_data@,
                    kanji_raw@[i].onyomi,
                    sorted_kanji@[i].onyomi@,
                );
                lemma_handle_stable(
                    vd_b,
                    vector_data@,
                    kanji_raw@[i].kunyomi,
                    sorted_kanji@[i].kunyomi@,
                );
                lemma_handle_stable(vd_b, vector_data@, kanji_raw@[i].tags, sorted_kanji@[i].tags@);
                lemma_handle_stable(
                    vd_b,
                    vector_data@,
                    kanji_raw@[i].stats,
                    flat_pairs(sorted_kanji@[i].stats@),
                );
            }
        }
        let d = crate::db::DB::assemble(
            tags_raw,
            terms_raw,
            kanji_raw,
            rows,
            srows,
            char_rows,
            vector_data,
            string_list,
            string_data,
        );
        let ghost m = d@;
        proof {
            broadcast use vstd::seq_lib::to_multiset_contains;

            assert forall|h: u32| h < ss2.len() implies #[trigger] m.strv(h) == ss2[h as int] by {
                assert(m.string_list[h as int] == string_list@[h as int]);
                assert(m.string_data.subrange(
                    m.string_list[h as int].offset as int,
                    m.string_list[h as int].offset + m.string_list[h as int].length,
                ) == strings@[h as int]@);
            }
            lemma_valid_records(m, ss0, ss2, tags0, sorted_terms@, sorted_kanji@);
            lemma_valid_prefix(m, ss2, sorted_terms@, rows0@);
            lemma_valid_suffix(m, ss2, sorted_terms@, rows0@, srows0@);
            assert(m.chars_ok()) by {
                assert forall|i: int| 0 <= i < m.index_chars_jp.len() implies m.terms_vec_ok(
                    (#[trigger] m.index_chars_jp[i]).indexes,
                ) by {
                    assert(handle_content(m.vector_data, m.index_chars_jp[i].indexes, buckets@[
                    i].1@));
                    assert(forall|j: int|
                        0 <= j < m.vecv(m.index_chars_jp[i].indexes).len() ==> #[trigger] m.vecv(
                            m.index_chars_jp[i].indexes,
                        )[j] < m.terms.len());
                }
                assert(forall|i: int, a: int, b: int|
                    #![trigger m.vecv(m.index_chars_jp[i].indexes)[a], m.vecv(m.index_chars_jp[i].indexes)[b]]
                    0 <= i < m.index_chars_jp.len() && 0 <= a < b < m.vecv(
                        m.index_chars_jp[i].indexes,
                    ).len() ==> m.vecv(m.index_chars_jp[i].indexes)[a] < m.vecv(
                        m.index_chars_jp[i].indexes,
                    )[b]) by {
                    assert(forall|i: int|
                        0 <= i < m.index_chars_jp.len() ==> m.vecv(
                            (#[trigger] m.index_chars_jp[i]).indexes,
                        ) == buckets@[i].1@);
                }
            }
            assert(m.fits());
            assert(m.valid());
            lemma_realizes(m, ss0, ss2, tags0, terms0, kanji0, sorted_terms@, sorted_kanji@);
            assert(model_realizes(m, ss0, tags0, terms0, kanji0));
        }
        let blob = crate::codec::emit_db(&d);
        proof {
            assert(crate::codec::good(blob@, m));
        }
        Ok(blob)
    }
}

/// The first index of `key` among the term occurrence entries, or `-1`.
pub open spec fn find_meta(meta: Seq<(Vec<u8>, u64)>, key: Seq<u8>) -> int
    decreases meta.len(),
{
    if meta.len() == 0 {
        -1
    } else if meta[0].0@ == key {
        0
    } else {
        let r = find_meta(meta.skip(1), key);
        if r < 0 {
            -1
        } else {
            r + 1
        }
    }
}

/// `find_meta` names the first match, and `-1` means no match.
pub proof fn lemma_find_meta(meta: Seq<(Vec<u8>, u64)>, key: Seq<u8>)
    ensures
        find_meta(meta, key) == -1 ==> forall|i: int|
            0 <= i < meta.len() ==> (#[trigger] meta[i]).0@ != key,
        find_meta(meta, key) >= 0 ==> 0 <= find_meta(meta, key) < meta.len() && meta[find_meta(
            meta,
            key,
        )].0@ == key && (forall|i: int|
            0 <= i < find_meta(meta, key) ==> (#[trigger] meta[i]).0@ != key),
    decreases meta.len(),
{
    if meta.len() > 0 && meta[0].0@ != key {
        lemma_find_meta(meta.skip(1), key);
        assert(forall|i: int| 1 <= i < meta.len() ==> meta[i] == meta.skip(1)[i - 1]);
    }
}

/// The first index of `character` among the kanji occurrence entries, or
/// `-1`.
pub open spec fn find_meta_u32(meta: Seq<(u32, u64)>, character: u32) -> int
    decreases meta.len(),
{
    if meta.len() == 0 {
        -1
    } else if meta[0].0 == character {
        0
    } else {
        let r = find_meta_u32(meta.skip(1), character);
        if r < 0 {
            -1
        } else {
            r + 1
        }
    }
}

/// `find_meta_u32` names the first match, and `-1` means no match.
pub proof fn lemma_find_meta_u32(meta: Seq<(u32, u64)>, character: u32)
    ensures
        find_meta_u32(meta, character) == -1 ==> forall|i: int|
            0 <= i < meta.len() ==> (#[trigger] meta[i]).0 != character,
        find_meta_u32(meta, character) >= 0 ==> 0 <= find_meta_u32(meta, character) < meta.len()
            && meta[find_meta_u32(meta, character)].0 == character && (forall|i: int|
            0 <= i < find_meta_u32(meta, character) ==> (#[trigger] meta[i]).0 != character),
    decreases meta.len(),
{
    if meta.len() > 0 && meta[0].0 != character {
        lemma_find_meta_u32(meta.skip(1), character);
        assert(forall|i: int| 1 <= i < meta.len() ==> meta[i] == meta.skip(1)[i - 1]);
    }
}

/// A term after the occurrence merge: a term whose expression has an entry
/// takes that count, clipped to 32 bits, as its frequency.
pub open spec fn merged_term(t: TermData, ss: Seq<Seq<u8>>, meta: Seq<(Vec<u8>, u64)>) -> TermData {
    let f = find_meta(meta, ss[t.expression as int]);
    if f >= 0 {
        TermData { frequency: meta[f].1 as u32, ..t }
    } else {
        t
    }
}

/// A kanji after the occurrence merge, by its code point.
pub open spec fn merged_kanji(k: KanjiData, meta: Seq<(u32, u64)>) -> KanjiData {
    let f = find_meta_u32(meta, k.character);
    if f >= 0 {
        KanjiData { frequency: meta[f].1 as u32, ..k }
    } else {
        k
    }
}

impl Writer {
    /// Looks an expression up in the occurrence entries.
    #[verifier::loop_isolation(false)]
    fn meta_lookup(meta: &Vec<(Vec<u8>, u64)>, key: &Vec<u8>) -> (r: Option<u64>)
        ensures
            match r {
                Some(v) => find_meta(meta@, key@) >= 0 && v == meta@[find_meta(meta@, key@)].1,
                None => find_meta(meta@, key@) == -1,
            },
    {
        let n = meta.len();
        let mut i: usize = 0;
        while i < n
            invariant
                0 <= i <= n,
                n == meta@.len(),
                forall|j: int| 0 <= j < i ==> (#[trigger] meta@[j]).0@ != key@,
            decreases n - i,
        {
            if bytes_eq(&meta[i].0, key) {
                proof {
                    lemma_find_meta(meta@, key@);
                    let f = find_meta(meta@, key@);
                    assert(meta@[i as int].0@ == key@);
                    if f == -1 {
                        assert(false);
                    }
                    if f < i {
                        assert(false);
                    }
                    if f > i {
                        assert(false);
                    }
                }
                return Some(meta[i].1);
            }
            i = i + 1;
        }
        proof {
            lemma_find_meta(meta@, key@);
            let f = find_meta(meta@, key@);
            if f >= 0 {
                assert(false);
            }
        }
        None
    }

    /// Merges an occurrence side-table into the pushed terms: each term
    /// whose expression string has an entry takes that count (clipped to 32
    /// bits) as its frequency.  Meant to run once, after ingestion and
    /// before `write`.
    #[verifier::loop_isolation(false)]
    pub fn merge_term_frequencies(&mut self, meta: &Vec<(Vec<u8>, u64)>)
        requires
            old(self).wf(),
        ensures
            final(self).wf(),
            final(self).strings() == old(self).strings(),
            final(self).tag_items() == old(self).tag_items(),
            final(self).kanji_items() == old(self).kanji_items(),
            final(self).is_full() == old(self).is_full(),
            final(self).term_items().len() == old(self).term_items().len(),
            forall|i: int|
                0 <= i < final(self).term_items().len() ==> #[trigger] final(self).term_items()[i]
                    == merged_term(old(self).term_items()[i], old(self).strings(), meta@),
    {
        let n = self.terms.len();
        let mut i: usize = 0;
        while i < n
            invariant
                0 <= i <= n,
                self.wf(),
                n == self.term_items().len(),
                self.strings() == old(self).strings(),
                self.tag_items() == old(self).tag_items(),
                self.kanji_items() == old(self).kanji_items(),
                self.is_full() == old(self).is_full(),
                self.term_items().len() == old(self).term_items().len(),
                forall|k: int|
                    0 <= k < i ==> #[trigger] self.term_items()[k] == merged_term(
                        old(self).term_items()[k],
                        old(self).strings(),
                        meta@,
                    ),
                forall|k: int|
                    i <= k < n ==> #[trigger] self.term_items()[k] == old(self).term_items()[k],
            decreases n - i,
        {
            let ghost before = self.term_items();
            let t = self.terms.remove(i);
            let key_handle = t.expression;
            let found = Self::meta_lookup(meta, &self.strings[key_handle as usize]);
            let t2 = match found {
                Some(v) => TermData { frequency: v as u32, ..t },
                None => t,
            };
            self.terms.insert(i, t2);
            proof {
                assert(self.term_items() =~= before.update(
                    i as int,
                    merged_term(old(self).term_items()[i as int], old(self).strings(), meta@),
                ));
            }
            i = i + 1;
        }
    }

    /// Merges an occurrence side-table into the pushed kanji, keyed by code
    /// point.
    #[verifier::loop_isolation(false)]
    pub fn merge_kanji_frequencies(&mut self, meta: &Vec<(u32, u64)>)
        requires
            old(self).wf(),
        ensures
            final(self).wf(),
            final(self).strings() == old(self).strings(),
            final(self).tag_items() == old(self).tag_items(),
            final(self).term_items() == old(self).term_items(),
            final(self).is_full() == old(self).is_full(),
            final(self).kanji_items().len() == old(self).kanji_items().len(),
            forall|i: int|
                0 <= i < final(self).kanji_items().len() ==> #[trigger] final(self).kanji_items()[i]
                    == merged_kanji(old(self).kanji_items()[i], meta@),
    {
        let n = self.kanji.len();
        let mut i: usize = 0;
        while i < n
            invariant
                0 <= i <= n,
                self.wf(),
                n == self.kanji_items().len(),
                self.strings() == old(self).strings(),
                self.tag_items() == old(self).tag_items(),
                self.term_items() == old(self).term_items(),
                self.is_full() == old(self).is_full(),
                self.kanji_items().len() == old(self).kanji_items().len(),
                forall|k: int|
                    0 <= k < i ==> #[trigger] self.kanji_items()[k] == merged_kanji(
                        old(self).kanji_items()[k],
                        meta@,
                    ),
                forall|k: int|
                    i <= k < n ==> #[trigger] self.kanji_items()[k] == old(self).kanji_items()[k],
            decreases n - i,
        {
            let ghost before = self.kanji_items();
            let k = self.kanji.remove(i);
            let character = k.character;
            let n_meta = meta.len();
            let mut j: usize = 0;
            let mut found: Option<u64> = None;
            while j < n_meta
                invariant
                    0 <= j <= n_meta,
                    n_meta == meta@.len(),
                    found is None ==> forall|q: int|
                        0 <= q < j ==> (#[trigger] meta@[q]).0 != character,
                    found matches Some(v) ==> find_meta_u32(meta@, character) >= 0 && v == meta@[
                    find_meta_u32(meta@, character)].1,
                decreases n_meta - j + (if found is None {
                    1int
                } else {
                    0int
                }),
            {
                if found.is_none() && meta[j].0 == character {
                    proof {
                        lemma_find_meta_u32(meta@, character);
                        let f = find_meta_u32(meta@, character);
                        assert(meta@[j as int].0 == character);
                        if f == -1 {
                            assert(false);
                        }
                        if f < j {
                            assert(false);
                        }
                        if f > j {
                            assert(false);
                        }
                    }
                    found = Some(meta[j].1);
                }
                j = j + 1;
            }
            proof {
                if found is None {
                    lemma_find_meta_u32(meta@, character);
                    let f = find_meta_u32(meta@, character);
                    if f >= 0 {
                        assert(false);
                    }
                }
            }
            let k2 = match found {
                Some(v) => KanjiData { frequency: v as u32, ..k },
                None => k,
            };
            self.kanji.insert(i, k2);
            proof {
                assert(self.kanji_items() =~= before.update(
                    i as int,
                    merged_kanji(old(self).kanji_items()[i as int], meta@),
                ));
            }
            i = i + 1;
        }
    }
}

} // verus!
