//! Search over the sorted key indexes.
//!
//! Results are collected into a [`ResultSet`], an ordered deduplicating set
//! of term indexes.  Exact and prefix queries binary-search the prefix index;
//! suffix queries prefix-search the suffix index with the grapheme reversal
//! of the key.  The contracts characterize the returned terms exactly in
//! terms of the keys each term was indexed under.

use vstd::prelude::*;

use crate::db::DbModel;
use crate::db::DB;
use crate::grapheme::grev;
use crate::grapheme::reverse_graphemes;
use crate::order::bytes_cmp;
use crate::order::bytes_eq;
use crate::order::bytes_starts_with;
use crate::order::is_prefix;
use crate::order::lemma_lex_le_antisymm;
use crate::order::lemma_lex_le_trans;
use crate::order::lemma_prefix_between;
use crate::order::lemma_prefix_lex_le;
use crate::order::lex_le;
use crate::raw::TermIndex;

verus! {

/// Stores the search results for a database: an ascending, duplicate-free
/// list of term indexes.
pub struct ResultSet {
    indexes: Vec<usize>,
}

impl View for ResultSet {
    type V = Seq<usize>;

    closed spec fn view(&self) -> Seq<usize> {
        self.indexes@
    }
}

impl ResultSet {
    /// The indexes are strictly ascending, hence free of duplicates.
    pub open spec fn wf(self) -> bool {
        forall|i: int, j: int| 0 <= i < j < self@.len() ==> self@[i] < self@[j]
    }

    /// An empty result set.
    pub fn new() -> (r: ResultSet)
        ensures
            r.wf(),
            r@.len() == 0,
    {
        ResultSet { indexes: Vec::new() }
    }

    /// How many term indexes the set holds.
    pub fn len(&self) -> (r: usize)
        ensures
            r == self@.len(),
    {
        self.indexes.len()
    }

    /// The term index at position `i` of the ascending order.
    pub fn get(&self, i: usize) -> (r: usize)
        requires
            i < self@.len(),
        ensures
            r == self@[i as int],
    {
        self.indexes[i]
    }

    /// Iterates over the stored indexes in ascending order.
    pub fn iter<'a>(&'a self) -> (r: ResultSetIter<'a>)
        ensures
            r.set() == self,
            r.position() == 0,
    {
        ResultSetIter { set: self, pos: 0 }
    }

    /// Inserts a term index, keeping the set ascending and duplicate-free.
    #[verifier::loop_isolation(false)]
    pub(crate) fn insert(&mut self, value: usize)
        requires
            old(self).wf(),
        ensures
            final(self).wf(),
            final(self)@.to_set() == old(self)@.to_set().insert(value),
            final(self)@.len() == old(self)@.len() + (if old(self)@.contains(value) {
                0int
            } else {
                1int
            }),
    {
        let len = self.indexes.len();
        let mut i: usize = 0;
        let mut scanning = true;
        while scanning
            invariant
                0 <= i <= len,
                forall|j: int| 0 <= j < i ==> self@[j] < value,
                !scanning ==> i == len || self@[i as int] >= value,
            decreases len - i + (if scanning {
                1int
            } else {
                0int
            }),
        {
            if i == len {
                scanning = false;
            } else if self.indexes[i] >= value {
                scanning = false;
            } else {
                i = i + 1;
            }
        }
        if i < len {
            let cur = self.indexes[i];
            if cur == value {
                proof {
                    assert(old(self)@.contains(value));
                    assert(self@.to_set() =~= old(self)@.to_set().insert(value));
                }
                return ;
            }
        }
        proof {
            assert(forall|j: int| i <= j < len ==> self@[j] > value) by {
                assert(forall|j: int|
                    i < j < len ==> self@[i as int] <= self@[j] || self@[i as int] < self@[j]);
            }
            if old(self)@.contains(value) {
                let w = choose|w: int| 0 <= w < old(self)@.len() && old(self)@[w] == value;
                assert(false);
            }
        }
        self.indexes.insert(i, value);
        proof {
            assert(final(self)@ == old(self)@.insert(i as int, value));
            assert(forall|a: int, b: int|
                0 <= a < b < self@.len() ==> self@[a] < self@[b]) by {
                assert(forall|a: int|
                    0 <= a < self@.len() ==> self@[a] == (if a < i {
                        old(self)@[a]
                    } else if a == i {
                        value
                    } else {
                        old(self)@[a - 1]
                    }));
            }
            assert(self@.to_set() =~= old(self)@.to_set().insert(value)) by {
                assert(forall|x: usize|
                    self@.to_set().contains(x) == self@.contains(x));
                assert(forall|x: usize| #[trigger]
                    self@.contains(x) ==> (exists|a: int| 0 <= a < self@.len() && self@[a] == x));
                assert(forall|a: int|
                    0 <= a < self@.len() ==> self@[a] == (if a < i {
                        old(self)@[a]
                    } else if a == i {
                        value
                    } else {
                        old(self)@[a - 1]
                    }));
                assert(forall|x: usize| old(self)@.contains(x) ==> self@.contains(x)) by {
                    assert(forall|a: int|
                        0 <= a < old(self)@.len() ==> old(self)@[a] == (if a < i {
                            self@[a]
                        } else {
                            self@[a + 1]
                        }));
                }
                assert(self@.contains(value)) by {
                    assert(self@[i as int] == value);
                }
            }
        }
    }
}

impl Default for ResultSet {
    /// An empty result set.
    fn default() -> (r: ResultSet)
        ensures
            r.wf(),
            r@.len() == 0,
    {
        ResultSet::new()
    }
}

/// Iterator over a [`ResultSet`], yielding term indexes in ascending order.
pub struct ResultSetIter<'a> {
    set: &'a ResultSet,
    pos: usize,
}

impl<'a> ResultSetIter<'a> {
    /// The set being walked.
    pub closed spec fn set(self) -> &'a ResultSet {
        self.set
    }

    /// How many indexes were yielded so far.
    pub closed spec fn position(self) -> usize {
        self.pos
    }

    /// The next term index in ascending order, if any remain.
    pub fn next(&mut self) -> (r: Option<usize>)
        ensures
            final(self).set() == old(self).set(),
            old(self).position() < old(self).set()@.len() ==> r == Some(
                old(self).set()@[old(self).position() as int],
            ) && final(self).position() == old(self).position() + 1,
            old(self).position() >= old(self).set()@.len() ==> r is None && final(self).position()
                == old(self).position(),
    {
        if self.pos < self.set.indexes.len() {
            let r = self.set.indexes[self.pos];
            self.pos = self.pos + 1;
            Some(r)
        } else {
            None
        }
    }

    /// How many indexes remain to be yielded.
    pub fn size_hint(&self) -> (r: usize)
        ensures
            r == if self.position() <= self.set()@.len() {
                self.set()@.len() - self.position()
            } else {
                0int
            },
    {
        if self.pos <= self.set.indexes.len() {
            self.set.indexes.len() - self.pos
        } else {
            0
        }
    }
}

impl DbModel {
    /// The rows of the chosen index.
    pub open spec fn rows(self, suffix: bool) -> Seq<TermIndex> {
        if suffix {
            self.index_suffix_jp
        } else {
            self.index_prefix_jp
        }
    }

    /// Row `j` of the chosen index matches the keyword: exactly in full
    /// match mode, as a prefix of the stored key otherwise.
    pub open spec fn row_pred(self, suffix: bool, full: bool, k: Seq<u8>, j: int) -> bool {
        let s = self.strv(self.rows(suffix)[j].key);
        if full {
            s == k
        } else {
            is_prefix(k, s)
        }
    }

    /// The terms reachable through a matching row of the chosen index.
    pub open spec fn row_match_terms(self, suffix: bool, full: bool, k: Seq<u8>) -> Set<usize> {
        Set::new(
            |t: usize|
                exists|j: int|
                    0 <= j < self.rows(suffix).len() && #[trigger] self.row_pred(suffix, full, k, j)
                        && t == self.rows(suffix)[j].term as usize,
        )
    }

    /// `k` is one of the key strings term `t` is indexed under.
    pub open spec fn term_has_key(self, t: int, k: Seq<u8>) -> bool {
        let rec = self.terms[t];
        ||| k == self.strv(rec.expression)
        ||| (rec.reading != 0 && k == self.strv(rec.reading))
        ||| (rec.search_key != 0 && k == self.strv(rec.search_key))
    }

    /// `k` is a prefix of one of the key strings term `t` is indexed under.
    pub open spec fn term_has_key_prefix(self, t: int, k: Seq<u8>) -> bool {
        let rec = self.terms[t];
        ||| is_prefix(k, self.strv(rec.expression))
        ||| (rec.reading != 0 && is_prefix(k, self.strv(rec.reading)))
        ||| (rec.search_key != 0 && is_prefix(k, self.strv(rec.search_key)))
    }

    /// `rk` is a prefix of the grapheme reversal of one of the key strings
    /// term `t` is indexed under.
    pub open spec fn term_has_rev_key_prefix(self, t: int, rk: Seq<u8>) -> bool {
        let rec = self.terms[t];
        ||| is_prefix(rk, grev(self.strv(rec.expression)))
        ||| (rec.reading != 0 && is_prefix(rk, grev(self.strv(rec.reading))))
        ||| (rec.search_key != 0 && is_prefix(rk, grev(self.strv(rec.search_key))))
    }

    /// The terms holding `k` as one of their key strings.
    pub open spec fn exact_matches(self, k: Seq<u8>) -> Set<usize> {
        Set::new(|t: usize| t < self.terms.len() && self.term_has_key(t as int, k))
    }

    /// The terms with a key string starting with `k`.
    pub open spec fn prefix_matches(self, k: Seq<u8>) -> Set<usize> {
        Set::new(|t: usize| t < self.terms.len() && self.term_has_key_prefix(t as int, k))
    }

    /// The terms with a reversed key string starting with `rk`.
    pub open spec fn suffix_matches(self, rk: Seq<u8>) -> Set<usize> {
        Set::new(|t: usize| t < self.terms.len() && self.term_has_rev_key_prefix(t as int, rk))
    }
}

/// On a valid database, the rows of the prefix index that exactly match `k`
/// reach precisely the terms having `k` among their keys.
pub proof fn lemma_exact_row_terms(m: DbModel, k: Seq<u8>)
    requires
        m.valid(),
    ensures
        m.row_match_terms(false, true, k) == m.exact_matches(k),
{
    assert forall|t: usize| m.row_match_terms(false, true, k).contains(t) implies m.exact_matches(
        k,
    ).contains(t) by {
        let j = choose|j: int|
            0 <= j < m.rows(false).len() && #[trigger] m.row_pred(false, true, k, j) && t
                == m.rows(false)[j].term as usize;
        assert(m.row_ok(m.index_prefix_jp[j]));
        assert(DbModel::term_key_handle(m.terms[m.index_prefix_jp[j].term as int],
            m.index_prefix_jp[j].key));
    }
    assert forall|t: usize| m.exact_matches(k).contains(t) implies m.row_match_terms(
        false,
        true,
        k,
    ).contains(t) by {
        let rec = m.terms[t as int];
        if k == m.strv(rec.expression) {
            let j = choose|j: int|
                0 <= j < m.index_prefix_jp.len() && #[trigger] m.index_prefix_jp[j] == (TermIndex {
                    key: rec.expression,
                    term: t as u32,
                });
            assert(m.row_pred(false, true, k, j));
        } else if rec.reading != 0 && k == m.strv(rec.reading) {
            let j = choose|j: int|
                0 <= j < m.index_prefix_jp.len() && #[trigger] m.index_prefix_jp[j] == (TermIndex {
                    key: rec.reading,
                    term: t as u32,
                });
            assert(m.row_pred(false, true, k, j));
        } else {
            let j = choose|j: int|
                0 <= j < m.index_prefix_jp.len() && #[trigger] m.index_prefix_jp[j] == (TermIndex {
                    key: rec.search_key,
                    term: t as u32,
                });
            assert(m.row_pred(false, true, k, j));
        }
    }
    assert(m.row_match_terms(false, true, k) =~= m.exact_matches(k));
}

/// On a valid database, the rows of the prefix index whose key starts with
/// `k` reach precisely the terms having a key starting with `k`.
pub proof fn lemma_prefix_row_terms(m: DbModel, k: Seq<u8>)
    requires
        m.valid(),
    ensures
        m.row_match_terms(false, false, k) == m.prefix_matches(k),
{
    assert forall|t: usize| m.row_match_terms(false, false, k).contains(t) implies m.prefix_matches(
        k,
    ).contains(t) by {
        let j = choose|j: int|
            0 <= j < m.rows(false).len() && #[trigger] m.row_pred(false, false, k, j) && t
                == m.rows(false)[j].term as usize;
        assert(m.row_ok(m.index_prefix_jp[j]));
        assert(DbModel::term_key_handle(m.terms[m.index_prefix_jp[j].term as int],
            m.index_prefix_jp[j].key));
    }
    assert forall|t: usize| m.prefix_matches(k).contains(t) implies m.row_match_terms(
        false,
        false,
        k,
    ).contains(t) by {
        let rec = m.terms[t as int];
        if is_prefix(k, m.strv(rec.expression)) {
            let j = choose|j: int|
                0 <= j < m.index_prefix_jp.len() && #[trigger] m.index_prefix_jp[j] == (TermIndex {
                    key: rec.expression,
                    term: t as u32,
                });
            assert(m.row_pred(false, false, k, j));
        } else if rec.reading != 0 && is_prefix(k, m.strv(rec.reading)) {
            let j = choose|j: int|
                0 <= j < m.index_prefix_jp.len() && #[trigger] m.index_prefix_jp[j] == (TermIndex {
                    key: rec.reading,
                    term: t as u32,
                });
            assert(m.row_pred(false, false, k, j));
        } else {
            let j = choose|j: int|
                0 <= j < m.index_prefix_jp.len() && #[trigger] m.index_prefix_jp[j] == (TermIndex {
                    key: rec.search_key,
                    term: t as u32,
                });
            assert(m.row_pred(false, false, k, j));
        }
    }
    assert(m.row_match_terms(false, false, k) =~= m.prefix_matches(k));
}

/// On a valid database, the rows of the suffix index whose stored key starts
/// with `rk` reach precisely the terms with a reversed key starting with
/// `rk`.
pub proof fn lemma_suffix_row_terms(m: DbModel, rk: Seq<u8>)
    requires
        m.valid(),
    ensures
        m.row_match_terms(true, false, rk) == m.suffix_matches(rk),
{
    assert forall|t: usize| m.row_match_terms(true, false, rk).contains(t) implies m.suffix_matches(
        rk,
    ).contains(t) by {
        let j = choose|j: int|
            0 <= j < m.rows(true).len() && #[trigger] m.row_pred(true, false, rk, j) && t
                == m.rows(true)[j].term as usize;
        assert(m.row_ok(m.index_suffix_jp[j]));
    }
    assert forall|t: usize| m.suffix_matches(rk).contains(t) implies m.row_match_terms(
        true,
        false,
        rk,
    ).contains(t) by {
        let rec = m.terms[t as int];
        if is_prefix(rk, grev(m.strv(rec.expression))) {
            assert(m.has_suffix_row(grev(m.strv(rec.expression)), t as int));
            let j = choose|j: int|
                0 <= j < m.index_suffix_jp.len() && (#[trigger] m.index_suffix_jp[j]).term
                    == t as u32 && m.strv(m.index_suffix_jp[j].key) == grev(m.strv(rec.expression));
            assert(m.row_pred(true, false, rk, j));
        } else if rec.reading != 0 && is_prefix(rk, grev(m.strv(rec.reading))) {
            assert(m.has_suffix_row(grev(m.strv(rec.reading)), t as int));
            let j = choose|j: int|
                0 <= j < m.index_suffix_jp.len() && (#[trigger] m.index_suffix_jp[j]).term
                    == t as u32 && m.strv(m.index_suffix_jp[j].key) == grev(m.strv(rec.reading));
            assert(m.row_pred(true, false, rk, j));
        } else {
            assert(m.has_suffix_row(grev(m.strv(rec.search_key)), t as int));
            let j = choose|j: int|
                0 <= j < m.index_suffix_jp.len() && (#[trigger] m.index_suffix_jp[j]).term
                    == t as u32 && m.strv(m.index_suffix_jp[j].key) == grev(
                    m.strv(rec.search_key),
                );
            assert(m.row_pred(true, false, rk, j));
        }
    }
    assert(m.row_match_terms(true, false, rk) =~= m.suffix_matches(rk));
}

impl DB {
    /// Search for an exact term, inserting the found term indexes into the
    /// `out` result set.
    ///
    /// Returns the number of newly inserted indexes.
    pub fn search_term(&self, term: &Vec<u8>, out: &mut ResultSet) -> (r: usize)
        requires
            self@.valid(),
            old(out).wf(),
        ensures
            final(out).wf(),
            r == final(out)@.len() - old(out)@.len(),
            term@.len() == 0 ==> final(out)@ == old(out)@ && r == 0,
            term@.len() > 0 ==> final(out)@.to_set() == old(out)@.to_set().union(
                self@.exact_matches(term@),
            ),
    {
        proof {
            lemma_exact_row_terms(self@, term@);
        }
        self.do_search_index(term, true, false, out)
    }

    /// Search for terms starting with the given prefix, inserting the found
    /// term indexes into the `out` result set.
    ///
    /// Returns the number of newly inserted indexes.
    pub fn search_prefix(&self, prefix: &Vec<u8>, out: &mut ResultSet) -> (r: usize)
        requires
            self@.valid(),
            old(out).wf(),
        ensures
            final(out).wf(),
            r == final(out)@.len() - old(out)@.len(),
            prefix@.len() == 0 ==> final(out)@ == old(out)@ && r == 0,
            prefix@.len() > 0 ==> final(out)@.to_set() == old(out)@.to_set().union(
                self@.prefix_matches(prefix@),
            ),
    {
        proof {
            lemma_prefix_row_terms(self@, prefix@);
        }
        self.do_search_index(prefix, false, false, out)
    }

    /// Search for terms with a key ending in the given suffix: the grapheme
    /// reversal of `suffix` is prefix-searched against the suffix index.
    ///
    /// Returns the number of newly inserted indexes.
    pub fn search_suffix(&self, suffix: &Vec<u8>, out: &mut ResultSet) -> (r: usize)
        requires
            self@.valid(),
            old(out).wf(),
        ensures
            final(out).wf(),
            r == final(out)@.len() - old(out)@.len(),
            suffix@.len() == 0 ==> final(out)@ == old(out)@ && r == 0,
            suffix@.len() > 0 ==> final(out)@.to_set() == old(out)@.to_set().union(
                self@.suffix_matches(grev(suffix@)),
            ),
    {
        let rev = reverse_graphemes(suffix);
        proof {
            lemma_suffix_row_terms(self@, grev(suffix@));
        }
        self.do_search_index(&rev, false, true, out)
    }

    /// Searches the keyword in the chosen index.  In full match mode only
    /// rows whose key equals the keyword match; otherwise every row whose
    /// key starts with the keyword matches.
    #[verifier::loop_isolation(false)]
    fn do_search_index(
        &self,
        keyword: &Vec<u8>,
        full_match: bool,
        suffix: bool,
        out: &mut ResultSet,
    ) -> (r: usize)
        requires
            self@.valid(),
            old(out).wf(),
        ensures
            final(out).wf(),
            r == final(out)@.len() - old(out)@.len(),
            keyword@.len() == 0 ==> final(out)@ == old(out)@ && r == 0,
            keyword@.len() > 0 ==> final(out)@.to_set() == old(out)@.to_set().union(
                self@.row_match_terms(suffix, full_match, keyword@),
            ),
    {
        if keyword.len() == 0 {
            return 0;
        }
        let start_count = out.len();
        if let Some((sta, end)) = self.do_search_index_range(keyword, full_match, suffix) {
            let mut i: usize = sta;
            while i <= end
                invariant
                    sta <= i <= end + 1,
                    end < self@.rows(suffix).len(),
                    out.wf(),
                    out@.to_set() =~= old(out)@.to_set().union(
                        Set::new(
                            |t: usize|
                                exists|j: int|
                                    sta <= j < i && t == (#[trigger] self@.rows(suffix)[j]).term
                                        as usize,
                        ),
                    ),
                    out@.len() >= old(out)@.len(),
                decreases end + 1 - i,
            {
                let row = if suffix {
                    self.suffix_at(i)
                } else {
                    self.prefix_at(i)
                };
                let ghost before = out@.to_set();
                let ghost seen_old = Set::new(
                    |t: usize|
                        exists|j: int|
                            sta <= j < i && t == (#[trigger] self@.rows(suffix)[j]).term as usize,
                );
                let ghost seen_new = Set::new(
                    |t: usize|
                        exists|j: int|
                            sta <= j < i + 1 && t == (#[trigger] self@.rows(suffix)[j]).term
                                as usize,
                );
                out.insert(row.term as usize);
                proof {
                    assert(self@.rows(suffix)[i as int].term == row.term);
                    assert(out@.to_set() == before.insert(row.term as usize));
                    assert(out@.to_set() =~= old(out)@.to_set().union(seen_new)) by {
                        assert forall|t: usize| seen_new.contains(t) implies before.insert(
                            row.term as usize,
                        ).contains(t) by {
                            let j = choose|j: int|
                                sta <= j < i + 1 && t == (#[trigger] self@.rows(suffix)[j]).term
                                    as usize;
                            if j < i {
                                assert(seen_old.contains(t));
                            } else {
                                assert(t == row.term as usize);
                            }
                        }
                        assert forall|t: usize| before.insert(row.term as usize).contains(
                            t,
                        ) implies old(out)@.to_set().union(seen_new).contains(t) by {
                            if t == row.term as usize {
                                assert(sta <= i < i + 1 && t == self@.rows(
                                    suffix,
                                )[i as int].term as usize);
                                assert(seen_new.contains(t));
                            } else {
                                assert(before.contains(t));
                                if seen_old.contains(t) {
                                    let j = choose|j: int|
                                        sta <= j < i && t == (#[trigger] self@.rows(
                                            suffix,
                                        )[j]).term as usize;
                                    assert(seen_new.contains(t));
                                }
                            }
                        }
                    }
                }
                i = i + 1;
            }
            proof {
                let found = Set::new(
                    |t: usize|
                        exists|j: int|
                            sta <= j < end + 1 && t == (#[trigger] self@.rows(suffix)[j]).term
                                as usize,
                );
                let matched = self@.row_match_terms(suffix, full_match, keyword@);
                assert(found =~= matched) by {
                    assert forall|t: usize| found.contains(t) implies matched.contains(t) by {
                        let j = choose|j: int|
                            sta <= j < end + 1 && t == (#[trigger] self@.rows(suffix)[j]).term
                                as usize;
                        assert(self@.row_pred(suffix, full_match, keyword@, j));
                    }
                    assert forall|t: usize| matched.contains(t) implies found.contains(t) by {
                        let j = choose|j: int|
                            0 <= j < self@.rows(suffix).len() && #[trigger] self@.row_pred(
                                suffix,
                                full_match,
                                keyword@,
                                j,
                            ) && t == self@.rows(suffix)[j].term as usize;
                        assert(sta <= j <= end);
                    }
                }
            }
            let final_count = out.len();
            final_count - start_count
        } else {
            proof {
                let matched = self@.row_match_terms(suffix, full_match, keyword@);
                assert(matched =~= Set::<usize>::empty());
                assert(out@.to_set() =~= old(out)@.to_set().union(matched));
            }
            0
        }
    }

    /// Binary-searches the keyword in the chosen index and expands the hit
    /// to the full inclusive run of matching rows.
    #[verifier::loop_isolation(false)]
    fn do_search_index_range(&self, keyword: &Vec<u8>, full_match: bool, suffix: bool) -> (r:
        Option<(usize, usize)>)
        requires
            self@.valid(),
            keyword@.len() > 0,
        ensures
            r matches Some((sta, end)) ==> sta <= end < self@.rows(suffix).len() && (forall|j: int|
                sta <= j <= end ==> self@.row_pred(suffix, full_match, keyword@, j)) && (forall|
                j: int,
            |
                0 <= j < self@.rows(suffix).len() && self@.row_pred(suffix, full_match, keyword@, j)
                    ==> sta <= j <= end),
            r is None ==> forall|j: int|
                0 <= j < self@.rows(suffix).len() ==> !self@.row_pred(
                    suffix,
                    full_match,
                    keyword@,
                    j,
                ),
    {
        let ghost m = self@;
        let ghost k = keyword@;
        let n = if suffix {
            self.suffix_len()
        } else {
            self.prefix_len()
        };
        let mut lo: usize = 0;
        let mut hi: usize = n;
        let mut pos: usize = 0;
        let mut found = false;
        while !found && lo < hi
            invariant
                0 <= lo <= hi <= n,
                !found ==> forall|j: int|
                    0 <= j < lo ==> !m.row_pred(suffix, full_match, k, j) && lex_le(
                        m.strv(m.rows(suffix)[j].key),
                        k,
                    ) && m.strv(m.rows(suffix)[j].key) != k,
                !found ==> forall|j: int|
                    hi <= j < n ==> !m.row_pred(suffix, full_match, k, j) && lex_le(
                        k,
                        m.strv(m.rows(suffix)[j].key),
                    ) && m.strv(m.rows(suffix)[j].key) != k,
                found ==> pos < n && m.row_pred(suffix, full_match, k, pos as int),
            decreases hi - lo + (if found {
                0int
            } else {
                1int
            }),
        {
            let mid = lo + (hi - lo) / 2;
            let row = if suffix {
                self.suffix_at(mid)
            } else {
                self.prefix_at(mid)
            };
            let s = self.get_str(row.key);
            let matches_here = if full_match {
                bytes_eq(&s, keyword)
            } else {
                bytes_starts_with(&s, keyword)
            };
            if matches_here {
                pos = mid;
                found = true;
                continue ;
            }
            let c = bytes_cmp(&s, keyword);
            if c < 0 {
                proof {
                    assert forall|j: int| 0 <= j < mid + 1 implies !m.row_pred(
                        suffix,
                        full_match,
                        k,
                        j,
                    ) && lex_le(m.strv(m.rows(suffix)[j].key), k) && m.strv(m.rows(suffix)[j].key)
                        != k by {
                        let sj = m.strv(m.rows(suffix)[j].key);
                        let sm = m.strv(m.rows(suffix)[mid as int].key);
                        assert(lex_le(sj, sm));
                        lemma_lex_le_trans(sj, sm, k);
                        if sj == k {
                            lemma_lex_le_antisymm(sm, k);
                        }
                        if !full_match && is_prefix(k, sj) {
                            lemma_prefix_lex_le(k, sj);
                            lemma_lex_le_trans(k, sj, sm);
                            lemma_lex_le_antisymm(sm, k);
                            assert(is_prefix(k, sm));
                        }
                    }
                }
                lo = mid + 1;
            } else {
                proof {
                    assert(is_prefix(k, k)) by {
                        assert(k.subrange(0, k.len() as int) =~= k);
                    }
                    assert(s@ != k) by {
                        if s@ == k {
                            assert(m.row_pred(suffix, full_match, k, mid as int));
                        }
                    }
                    assert forall|j: int| mid <= j < n implies !m.row_pred(
                        suffix,
                        full_match,
                        k,
                        j,
                    ) && lex_le(k, m.strv(m.rows(suffix)[j].key)) && m.strv(m.rows(suffix)[j].key)
                        != k by {
                        let sj = m.strv(m.rows(suffix)[j].key);
                        let sm = m.strv(m.rows(suffix)[mid as int].key);
                        assert(lex_le(sm, sj));
                        lemma_lex_le_trans(k, sm, sj);
                        if sj == k {
                            lemma_lex_le_antisymm(sm, k);
                        }
                        if !full_match && is_prefix(k, sj) {
                            lemma_prefix_lex_le(k, sj);
                            lemma_prefix_between(k, k, sm, sj);
                            assert(is_prefix(k, sm));
                        }
                    }
                }
                hi = mid;
            }
        }
        if !found {
            return None;
        }
        let n_minus_1 = n - 1;
        let mut sta: usize = pos;
        let mut end: usize = pos;
        let mut scanning = true;
        while scanning
            invariant
                0 <= sta <= pos,
                forall|j: int| sta <= j <= pos ==> m.row_pred(suffix, full_match, k, j),
                !scanning ==> sta == 0 || !m.row_pred(suffix, full_match, k, sta - 1),
            decreases sta + (if scanning {
                1int
            } else {
                0int
            }),
        {
            if sta == 0 {
                scanning = false;
            } else {
                let row = if suffix {
                    self.suffix_at(sta - 1)
                } else {
                    self.prefix_at(sta - 1)
                };
                let s = self.get_str(row.key);
                let matches_here = if full_match {
                    bytes_eq(&s, keyword)
                } else {
                    bytes_starts_with(&s, keyword)
                };
                if matches_here {
                    sta = sta - 1;
                } else {
                    scanning = false;
                }
            }
        }
        let mut scanning_up = true;
        while scanning_up
            invariant
                pos <= end < n,
                forall|j: int| pos <= j <= end ==> m.row_pred(suffix, full_match, k, j),
                !scanning_up ==> end == n_minus_1 || !m.row_pred(suffix, full_match, k, end + 1),
            decreases n - end + (if scanning_up {
                1int
            } else {
                0int
            }),
        {
            if end >= n_minus_1 {
                scanning_up = false;
            } else {
                let row = if suffix {
                    self.suffix_at(end + 1)
                } else {
                    self.prefix_at(end + 1)
                };
                let s = self.get_str(row.key);
                let matches_here = if full_match {
                    bytes_eq(&s, keyword)
                } else {
                    bytes_starts_with(&s, keyword)
                };
                if matches_here {
                    end = end + 1;
                } else {
                    scanning_up = false;
                }
            }
        }
        proof {
            assert forall|j: int|
                0 <= j < n && m.row_pred(suffix, full_match, k, j) implies sta <= j <= end by {
                let sj = m.strv(m.rows(suffix)[j].key);
                let sp = m.strv(m.rows(suffix)[pos as int].key);
                if j < sta {
                    let sb = m.strv(m.rows(suffix)[sta - 1].key);
                    assert(lex_le(sj, sb));
                    assert(lex_le(sb, sp));
                    if full_match {
                        lemma_lex_le_antisymm(sb, k);
                    } else {
                        lemma_prefix_between(k, sj, sb, sp);
                    }
                    assert(m.row_pred(suffix, full_match, k, sta - 1));
                }
                if j > end {
                    let sb = m.strv(m.rows(suffix)[end + 1].key);
                    assert(lex_le(sp, sb));
                    assert(lex_le(sb, sj));
                    if full_match {
                        lemma_lex_le_antisymm(sb, k);
                    } else {
                        lemma_prefix_between(k, sp, sb, sj);
                    }
                    assert(m.row_pred(suffix, full_match, k, end + 1));
                }
            }
        }
        Some((sta, end))
    }
}

} // verus!
