//! The on-disk format.
//!
//! A blob is nine sections in fixed order — tags, terms, kanji, the three
//! indexes, the vector arena, the string list and the string data — each a
//! little-endian `u32` count followed by that many packed fixed-width
//! records.  The first eight sections consist purely of 32-bit words;
//! [`words`] names that word stream and [`encode_model`] the whole blob.
//! [`parse_db`] inverts the encoding exactly: it succeeds on precisely the
//! well-formed blobs, and on them returns the unique model that encodes to
//! the input.

use vstd::prelude::*;

use crate::db::DbError;
use crate::db::DbModel;
use crate::db::Section;
use crate::db::DB;
use crate::raw::le32;
use crate::raw::le32_val;
use crate::raw::lemma_le32_round_trip;
use crate::raw::CharIndex;
use crate::raw::KanjiRaw;
use crate::raw::RawUint32;
use crate::raw::StrHandle;
use crate::raw::TagRaw;
use crate::raw::TermIndex;
use crate::raw::VecHandle;
use crate::raw::TermRaw;

verus! {

/// Each 32-bit word encoded to its four little-endian bytes, in order.
pub open spec fn enc_u32_seq(s: Seq<u32>) -> Seq<u8>
    decreases s.len(),
{
    if s.len() == 0 {
        Seq::empty()
    } else {
        le32(s[0]) + enc_u32_seq(s.skip(1))
    }
}

/// Encoding distributes over appending one word.
pub proof fn lemma_enc_push(s: Seq<u32>, v: u32)
    ensures
        enc_u32_seq(s.push(v)) == enc_u32_seq(s) + le32(v),
    decreases s.len(),
{
    if s.len() == 0 {
        assert(s.push(v).skip(1) =~= Seq::<u32>::empty());
        assert(s.push(v)[0] == v);
        assert(enc_u32_seq(Seq::<u32>::empty()) == Seq::<u8>::empty());
        assert(enc_u32_seq(s) == Seq::<u8>::empty());
        assert(enc_u32_seq(s.push(v)) == le32(v) + Seq::<u8>::empty());
        assert(le32(v) + Seq::<u8>::empty() =~= le32(v));
        assert(enc_u32_seq(s) + le32(v) =~= le32(v));
    } else {
        lemma_enc_push(s.skip(1), v);
        assert(s.push(v).skip(1) =~= s.skip(1).push(v));
        assert(s.push(v)[0] == s[0]);
        assert(le32(s[0]) + (enc_u32_seq(s.skip(1)) + le32(v)) =~= (le32(s[0]) + enc_u32_seq(
            s.skip(1),
        )) + le32(v));
    }
}

/// The encoding is four bytes per word, and word `j` sits at byte `4 * j`.
pub proof fn lemma_enc_index(s: Seq<u32>, j: int)
    requires
        0 <= j < s.len(),
    ensures
        enc_u32_seq(s).len() == 4 * s.len(),
        enc_u32_seq(s).subrange(4 * j, 4 * j + 4) == le32(s[j]),
    decreases s.len(),
{
    lemma_enc_len(s);
    if j == 0 {
        lemma_enc_len(s.skip(1));
        assert(enc_u32_seq(s).subrange(0, 4) =~= le32(s[0]));
    } else {
        lemma_enc_index(s.skip(1), j - 1);
        lemma_enc_len(s.skip(1));
        assert(enc_u32_seq(s) == le32(s[0]) + enc_u32_seq(s.skip(1)));
        assert(enc_u32_seq(s).subrange(4 * j, 4 * j + 4) =~= enc_u32_seq(s.skip(1)).subrange(
            4 * (j - 1),
            4 * (j - 1) + 4,
        ));
        assert(s.skip(1)[j - 1] == s[j]);
    }
}

/// The encoding is four bytes per word.
pub proof fn lemma_enc_len(s: Seq<u32>)
    ensures
        enc_u32_seq(s).len() == 4 * s.len(),
    decreases s.len(),
{
    if s.len() > 0 {
        lemma_enc_len(s.skip(1));
    }
}

/// Bytes whose 4-byte chunks each encode the matching word are exactly the
/// encoding of the word sequence.
pub proof fn lemma_enc_from_chunks(s: Seq<u32>, b: Seq<u8>)
    requires
        b.len() == 4 * s.len(),
        forall|j: int| 0 <= j < s.len() ==> b.subrange(4 * j, 4 * j + 4) == le32(s[j]),
    ensures
        b == enc_u32_seq(s),
    decreases s.len(),
{
    if s.len() == 0 {
        assert(b =~= enc_u32_seq(s));
    } else {
        assert(b.subrange(0, 4) == le32(s[0]));
        assert forall|j: int| 0 <= j < s.skip(1).len() implies b.skip(4).subrange(
            4 * j,
            4 * j + 4,
        ) == le32(s.skip(1)[j]) by {
            assert(b.skip(4).subrange(4 * j, 4 * j + 4) =~= b.subrange(4 * (j + 1), 4 * (j + 1)
                + 4));
        }
        lemma_enc_from_chunks(s.skip(1), b.skip(4));
        assert(b.subrange(0, 4)[0] == b[0] && b.subrange(0, 4)[1] == b[1] && b.subrange(0, 4)[2]
            == b[2] && b.subrange(0, 4)[3] == b[3]);
        assert(b =~= le32(s[0]) + enc_u32_seq(s.skip(1)));
    }
}

/// Four little-endian bytes decode to the value whose encoding they are.
pub proof fn lemma_le32_inverse(b: Seq<u8>)
    requires
        b.len() == 4,
    ensures
        le32(le32_val(b)) == b,
{
    let v = le32_val(b);
    assert(b[0] < 0x100 && b[1] < 0x100 && b[2] < 0x100 && b[3] < 0x100);
    assert(v == b[0] + b[1] * 0x100 + b[2] * 0x10000 + b[3] * 0x1000000);
    assert(v % 0x100 == b[0] && (v / 0x100) % 0x100 == b[1] && (v / 0x10000) % 0x100 == b[2] && (v
        / 0x1000000) % 0x100 == b[3]) by {
        let b0 = b[0] as int;
        let b1 = b[1] as int;
        let b2 = b[2] as int;
        let b3 = b[3] as int;
        let w = b0 + b1 * 0x100 + b2 * 0x10000 + b3 * 0x1000000;
        assert(w % 0x100 == b0 && (w / 0x100) % 0x100 == b1 && (w / 0x10000) % 0x100 == b2 && (w
            / 0x1000000) % 0x100 == b3) by (nonlinear_arith)
            requires
                0 <= b0 < 0x100 && 0 <= b1 < 0x100 && 0 <= b2 < 0x100 && 0 <= b3 < 0x100 && w == b0
                    + b1 * 0x100 + b2 * 0x10000 + b3 * 0x1000000,
        ;
    }
    assert(le32(v) =~= b);
}

/// Flattens records into one word stream, `f` giving each record's words.
pub open spec fn flat_records<T>(s: Seq<T>, f: spec_fn(T) -> Seq<u32>) -> Seq<u32>
    decreases s.len(),
{
    if s.len() == 0 {
        Seq::empty()
    } else {
        f(s[0]) + flat_records(s.skip(1), f)
    }
}

/// Flattening distributes over appending one record.
pub proof fn lemma_flat_push<T>(s: Seq<T>, f: spec_fn(T) -> Seq<u32>, t: T)
    ensures
        flat_records(s.push(t), f) == flat_records(s, f) + f(t),
    decreases s.len(),
{
    if s.len() == 0 {
        assert(s.push(t).skip(1) =~= Seq::<T>::empty());
        assert(s.push(t)[0] == t);
        assert(flat_records(Seq::<T>::empty(), f) == Seq::<u32>::empty());
        assert(flat_records(s, f) == Seq::<u32>::empty());
        assert(flat_records(s.push(t), f) == f(t) + Seq::<u32>::empty());
        assert(f(t) + Seq::<u32>::empty() =~= f(t));
        assert(flat_records(s, f) + f(t) =~= f(t));
    } else {
        lemma_flat_push(s.skip(1), f, t);
        assert(s.push(t).skip(1) =~= s.skip(1).push(t));
        assert(s.push(t)[0] == s[0]);
        assert(f(s[0]) + (flat_records(s.skip(1), f) + f(t)) =~= (f(s[0]) + flat_records(
            s.skip(1),
            f,
        )) + f(t));
    }
}

/// With fixed-width records, the flattening has `w` words per record and
/// record `i` occupies words `w * i` to `w * i + w`.
pub proof fn lemma_flat_index<T>(s: Seq<T>, f: spec_fn(T) -> Seq<u32>, w: int, i: int)
    requires
        forall|t: T| (#[trigger] f(t)).len() == w,
        w >= 0,
        0 <= i < s.len(),
    ensures
        flat_records(s, f).len() == w * s.len(),
        flat_records(s, f).subrange(w * i, w * i + w) == f(s[i]),
    decreases s.len(),
{
    lemma_flat_len(s, f, w);
    if i == 0 {
        lemma_flat_len(s.skip(1), f, w);
        assert(flat_records(s, f) == f(s[0]) + flat_records(s.skip(1), f));
        assert(flat_records(s, f).subrange(0, w) =~= f(s[0]));
    } else {
        lemma_flat_index(s.skip(1), f, w, i - 1);
        lemma_flat_len(s.skip(1), f, w);
        assert(s.skip(1)[i - 1] == s[i]);
        assert(w * (i - 1) == w * i - w) by (nonlinear_arith);
        assert(w * i >= w) by (nonlinear_arith)
            requires
                w >= 0 && i >= 1,
        ;
        assert(w * i + w <= w * s.len()) by (nonlinear_arith)
            requires
                w >= 0 && i + 1 <= s.len(),
        ;
        assert(flat_records(s, f) == f(s[0]) + flat_records(s.skip(1), f));
        assert(flat_records(s, f).subrange(w * i, w * i + w) =~= flat_records(
            s.skip(1),
            f,
        ).subrange(w * (i - 1), w * (i - 1) + w));
    }
}

/// With fixed-width records, the flattening has `w` words per record.
pub proof fn lemma_flat_len<T>(s: Seq<T>, f: spec_fn(T) -> Seq<u32>, w: int)
    requires
        forall|t: T| (#[trigger] f(t)).len() == w,
        w >= 0,
    ensures
        flat_records(s, f).len() == w * s.len(),
    decreases s.len(),
{
    if s.len() > 0 {
        lemma_flat_len(s.skip(1), f, w);
        assert(w * s.len() == w * s.skip(1).len() + w) by (nonlinear_arith)
            requires
                s.len() >= 1 && s.skip(1).len() == s.len() - 1,
        ;
    }
}

/// The words of one tag record.
pub open spec fn tag_u32s(t: TagRaw) -> Seq<u32> {
    seq![t.name, t.category, t.order, t.notes]
}

/// The words of one term record.
pub open spec fn term_u32s(t: TermRaw) -> Seq<u32> {
    seq![
        t.expression,
        t.reading,
        t.search_key,
        t.score,
        t.sequence,
        t.frequency,
        t.source,
        t.glossary.offset,
        t.glossary.length,
        t.rules.offset,
        t.rules.length,
        t.term_tags.offset,
        t.term_tags.length,
        t.definition_tags.offset,
        t.definition_tags.length,
    ]
}

/// The words of one kanji record.
pub open spec fn kanji_u32s(k: KanjiRaw) -> Seq<u32> {
    seq![
        k.character,
        k.frequency,
        k.source,
        k.meanings.offset,
        k.meanings.length,
        k.onyomi.offset,
        k.onyomi.length,
        k.kunyomi.offset,
        k.kunyomi.length,
        k.tags.offset,
        k.tags.length,
        k.stats.offset,
        k.stats.length,
    ]
}

/// The words of one index row.
pub open spec fn row_u32s(r: TermIndex) -> Seq<u32> {
    seq![r.key, r.term]
}

/// The words of one character index row.
pub open spec fn char_u32s(c: CharIndex) -> Seq<u32> {
    seq![c.character, c.indexes.offset, c.indexes.length]
}

/// The words of one string handle.
pub open spec fn strh_u32s(h: StrHandle) -> Seq<u32> {
    seq![h.offset, h.length]
}

/// The words of one arena element.
pub open spec fn u32_u32s(v: u32) -> Seq<u32> {
    seq![v]
}


/// The word encoder of each record kind, under one name so that every
/// occurrence denotes the same function value.
pub open spec fn tag_f() -> spec_fn(TagRaw) -> Seq<u32> {
    |t: TagRaw| tag_u32s(t)
}

pub open spec fn term_f() -> spec_fn(TermRaw) -> Seq<u32> {
    |t: TermRaw| term_u32s(t)
}

pub open spec fn kanji_f() -> spec_fn(KanjiRaw) -> Seq<u32> {
    |t: KanjiRaw| kanji_u32s(t)
}

pub open spec fn row_f() -> spec_fn(TermIndex) -> Seq<u32> {
    |t: TermIndex| row_u32s(t)
}

pub open spec fn char_f() -> spec_fn(CharIndex) -> Seq<u32> {
    |t: CharIndex| char_u32s(t)
}

pub open spec fn strh_f() -> spec_fn(StrHandle) -> Seq<u32> {
    |t: StrHandle| strh_u32s(t)
}

pub open spec fn u32_f() -> spec_fn(u32) -> Seq<u32> {
    |t: u32| u32_u32s(t)
}

/// The full word stream of a model: eight counted word sections followed by
/// the byte count of the string data.
pub open spec fn words(m: DbModel) -> Seq<u32> {
    seq![m.tags.len() as u32] + flat_records(m.tags, tag_f()) + seq![m.terms.len() as u32]
        + flat_records(m.terms, term_f()) + seq![m.kanji.len() as u32] + flat_records(
        m.kanji,
        kanji_f(),
    ) + seq![m.index_prefix_jp.len() as u32] + flat_records(m.index_prefix_jp, row_f()) + seq![
        m.index_suffix_jp.len() as u32,
    ] + flat_records(m.index_suffix_jp, row_f()) + seq![m.index_chars_jp.len() as u32]
        + flat_records(m.index_chars_jp, char_f()) + seq![m.vector_data.len() as u32]
        + flat_records(m.vector_data, u32_f()) + seq![m.string_list.len() as u32] + flat_records(
        m.string_list,
        strh_f(),
    ) + seq![m.string_data.len() as u32]
}

/// The whole blob: the word stream, then the raw string data bytes.
pub open spec fn encode_model(m: DbModel) -> Seq<u8> {
    enc_u32_seq(words(m)) + m.string_data
}

/// Word index of the section counts and section bodies within [`words`].
pub open spec fn p_terms_c(m: DbModel) -> int {
    1 + 4 * m.tags.len() as int
}

pub open spec fn p_kanji_c(m: DbModel) -> int {
    p_terms_c(m) + 1 + 15 * m.terms.len() as int
}

pub open spec fn p_pre_c(m: DbModel) -> int {
    p_kanji_c(m) + 1 + 13 * m.kanji.len() as int
}

pub open spec fn p_suf_c(m: DbModel) -> int {
    p_pre_c(m) + 1 + 2 * m.index_prefix_jp.len() as int
}

pub open spec fn p_chr_c(m: DbModel) -> int {
    p_suf_c(m) + 1 + 2 * m.index_suffix_jp.len() as int
}

pub open spec fn p_vec_c(m: DbModel) -> int {
    p_chr_c(m) + 1 + 3 * m.index_chars_jp.len() as int
}

pub open spec fn p_strl_c(m: DbModel) -> int {
    p_vec_c(m) + 1 + m.vector_data.len() as int
}

pub open spec fn p_dc(m: DbModel) -> int {
    p_strl_c(m) + 1 + 2 * m.string_list.len() as int
}

/// Brings the flattened section lengths into scope.
pub proof fn lemma_section_lens(m: DbModel)
    ensures
        flat_records(m.tags, tag_f()).len() == 4 * m.tags.len(),
        flat_records(m.terms, term_f()).len() == 15 * m.terms.len(),
        flat_records(m.kanji, kanji_f()).len() == 13 * m.kanji.len(),
        flat_records(m.index_prefix_jp, row_f()).len() == 2 * m.index_prefix_jp.len(),
        flat_records(m.index_suffix_jp, row_f()).len() == 2 * m.index_suffix_jp.len(),
        flat_records(m.index_chars_jp, char_f()).len() == 3 * m.index_chars_jp.len(),
        flat_records(m.vector_data, u32_f()).len() == m.vector_data.len(),
        flat_records(m.string_list, strh_f()).len() == 2 * m.string_list.len(),
        words(m).len() == p_dc(m) + 1,
{
    lemma_flat_len(m.tags, tag_f(), 4);
    lemma_flat_len(m.terms, term_f(), 15);
    lemma_flat_len(m.kanji, kanji_f(), 13);
    lemma_flat_len(m.index_prefix_jp, row_f(), 2);
    lemma_flat_len(m.index_suffix_jp, row_f(), 2);
    lemma_flat_len(m.index_chars_jp, char_f(), 3);
    lemma_flat_len(m.vector_data, u32_f(), 1);
    lemma_flat_len(m.string_list, strh_f(), 2);
}

/// The nine count words of the stream.
pub proof fn lemma_words_counts(m: DbModel)
    ensures
        words(m).len() == p_dc(m) + 1,
        words(m)[0] == m.tags.len() as u32,
        words(m)[p_terms_c(m)] == m.terms.len() as u32,
        words(m)[p_kanji_c(m)] == m.kanji.len() as u32,
        words(m)[p_pre_c(m)] == m.index_prefix_jp.len() as u32,
        words(m)[p_suf_c(m)] == m.index_suffix_jp.len() as u32,
        words(m)[p_chr_c(m)] == m.index_chars_jp.len() as u32,
        words(m)[p_vec_c(m)] == m.vector_data.len() as u32,
        words(m)[p_strl_c(m)] == m.string_list.len() as u32,
        words(m)[p_dc(m)] == m.string_data.len() as u32,
{
    lemma_section_lens(m);
}

/// Record `i` of each section, as a word-stream segment.
pub proof fn lemma_words_tag_at(m: DbModel, i: int)
    requires
        0 <= i < m.tags.len(),
    ensures
        words(m).subrange(1 + 4 * i, 1 + 4 * i + 4) == tag_u32s(m.tags[i]),
    decreases 0int,
{
    lemma_section_lens(m);
    lemma_flat_index(m.tags, tag_f(), 4, i);
    assert(words(m).subrange(1 + 4 * i, 1 + 4 * i + 4) =~= flat_records(
        m.tags,
        tag_f(),
    ).subrange(4 * i, 4 * i + 4));
}

pub proof fn lemma_words_term_at(m: DbModel, i: int)
    requires
        0 <= i < m.terms.len(),
    ensures
        words(m).subrange(p_terms_c(m) + 1 + 15 * i, p_terms_c(m) + 1 + 15 * i + 15) == term_u32s(
            m.terms[i],
        ),
{
    lemma_section_lens(m);
    lemma_flat_index(m.terms, term_f(), 15, i);
    assert(words(m).subrange(p_terms_c(m) + 1 + 15 * i, p_terms_c(m) + 1 + 15 * i + 15)
        =~= flat_records(m.terms, term_f()).subrange(15 * i, 15 * i + 15));
}

pub proof fn lemma_words_kanji_at(m: DbModel, i: int)
    requires
        0 <= i < m.kanji.len(),
    ensures
        words(m).subrange(p_kanji_c(m) + 1 + 13 * i, p_kanji_c(m) + 1 + 13 * i + 13) == kanji_u32s(
            m.kanji[i],
        ),
{
    lemma_section_lens(m);
    lemma_flat_index(m.kanji, kanji_f(), 13, i);
    assert(words(m).subrange(p_kanji_c(m) + 1 + 13 * i, p_kanji_c(m) + 1 + 13 * i + 13)
        =~= flat_records(m.kanji, kanji_f()).subrange(13 * i, 13 * i + 13));
}

pub proof fn lemma_words_prefix_at(m: DbModel, i: int)
    requires
        0 <= i < m.index_prefix_jp.len(),
    ensures
        words(m).subrange(p_pre_c(m) + 1 + 2 * i, p_pre_c(m) + 1 + 2 * i + 2) == row_u32s(
            m.index_prefix_jp[i],
        ),
{
    lemma_section_lens(m);
    lemma_flat_index(m.index_prefix_jp, row_f(), 2, i);
    assert(words(m).subrange(p_pre_c(m) + 1 + 2 * i, p_pre_c(m) + 1 + 2 * i + 2) =~= flat_records(
        m.index_prefix_jp,
        row_f(),
    ).subrange(2 * i, 2 * i + 2));
}

pub proof fn lemma_words_suffix_at(m: DbModel, i: int)
    requires
        0 <= i < m.index_suffix_jp.len(),
    ensures
        words(m).subrange(p_suf_c(m) + 1 + 2 * i, p_suf_c(m) + 1 + 2 * i + 2) == row_u32s(
            m.index_suffix_jp[i],
        ),
{
    lemma_section_lens(m);
    lemma_flat_index(m.index_suffix_jp, row_f(), 2, i);
    assert(words(m).subrange(p_suf_c(m) + 1 + 2 * i, p_suf_c(m) + 1 + 2 * i + 2) =~= flat_records(
        m.index_suffix_jp,
        row_f(),
    ).subrange(2 * i, 2 * i + 2));
}

pub proof fn lemma_words_char_at(m: DbModel, i: int)
    requires
        0 <= i < m.index_chars_jp.len(),
    ensures
        words(m).subrange(p_chr_c(m) + 1 + 3 * i, p_chr_c(m) + 1 + 3 * i + 3) == char_u32s(
            m.index_chars_jp[i],
        ),
{
    lemma_section_lens(m);
    lemma_flat_index(m.index_chars_jp, char_f(), 3, i);
    assert(words(m).subrange(p_chr_c(m) + 1 + 3 * i, p_chr_c(m) + 1 + 3 * i + 3) =~= flat_records(
        m.index_chars_jp,
        char_f(),
    ).subrange(3 * i, 3 * i + 3));
}

pub proof fn lemma_words_vector_at(m: DbModel, i: int)
    requires
        0 <= i < m.vector_data.len(),
    ensures
        words(m)[p_vec_c(m) + 1 + i] == m.vector_data[i],
{
    lemma_section_lens(m);
    lemma_flat_index(m.vector_data, u32_f(), 1, i);
    assert(flat_records(m.vector_data, u32_f()).subrange(i, i + 1)[0] == u32_u32s(
        m.vector_data[i],
    )[0]);
    assert(words(m)[p_vec_c(m) + 1 + i] == flat_records(m.vector_data, u32_f())[i]);
}

pub proof fn lemma_words_strh_at(m: DbModel, i: int)
    requires
        0 <= i < m.string_list.len(),
    ensures
        words(m).subrange(p_strl_c(m) + 1 + 2 * i, p_strl_c(m) + 1 + 2 * i + 2) == strh_u32s(
            m.string_list[i],
        ),
{
    lemma_section_lens(m);
    lemma_flat_index(m.string_list, strh_f(), 2, i);
    assert(words(m).subrange(p_strl_c(m) + 1 + 2 * i, p_strl_c(m) + 1 + 2 * i + 2)
        =~= flat_records(m.string_list, strh_f()).subrange(2 * i, 2 * i + 2));
}

/// The word `j` of an encoded blob, read back from its bytes.
pub proof fn lemma_word_at(m: DbModel, bytes: Seq<u8>, j: int)
    requires
        bytes == encode_model(m),
        0 <= j < words(m).len(),
    ensures
        bytes.len() == 4 * words(m).len() + m.string_data.len(),
        4 * j + 4 <= bytes.len(),
        le32_val(bytes.subrange(4 * j, 4 * j + 4)) == words(m)[j],
{
    lemma_enc_index(words(m), j);
    assert(bytes.subrange(4 * j, 4 * j + 4) =~= enc_u32_seq(words(m)).subrange(4 * j, 4 * j + 4));
    lemma_le32_round_trip(words(m)[j]);
}

/// Appends one word's little-endian bytes, extending the emitted stream.
fn emit_word(out: &mut Vec<u8>, v: u32, Ghost(ws): Ghost<Seq<u32>>) -> (r: Ghost<Seq<u32>>)
    requires
        old(out)@ == enc_u32_seq(ws),
    ensures
        final(out)@ == enc_u32_seq(r@),
        r@ == ws.push(v),
{
    RawUint32 { value: v }.write_le(out);
    proof {
        lemma_enc_push(ws, v);
    }
    Ghost(ws.push(v))
}

/// Emits one counted section of fixed-width records.
///
/// Each `emit_*` helper appends the section count and the flattened records
/// of its section to the stream, in the order of the format.
#[verifier::loop_isolation(false)]
fn emit_tags(d: &DB, out: &mut Vec<u8>, Ghost(ws): Ghost<Seq<u32>>) -> (r: Ghost<Seq<u32>>)
    requires
        old(out)@ == enc_u32_seq(ws),
        d@.tags.len() <= u32::MAX,
    ensures
        final(out)@ == enc_u32_seq(r@),
        r@ == ws + seq![d@.tags.len() as u32] + flat_records(d@.tags, tag_f()),
{
    let ghost m = d@;
    let n = d.tags_len();
    let mut ws2 = emit_word(out, n as u32, Ghost(ws));
    let ghost base = ws + seq![m.tags.len() as u32];
    proof {
        assert(ws2@ =~= base + flat_records(m.tags.subrange(0, 0), tag_f()));
    }
    let mut i: usize = 0;
    while i < n
        invariant
            0 <= i <= m.tags.len(),
            out@ == enc_u32_seq(ws2@),
            ws2@ == base + flat_records(m.tags.subrange(0, i as int), tag_f()),
        decreases n - i,
    {
        let t = d.tag_at(i);
        let ghost prev = ws2@;
        ws2 = emit_word(out, t.name, ws2);
        ws2 = emit_word(out, t.category, ws2);
        ws2 = emit_word(out, t.order, ws2);
        ws2 = emit_word(out, t.notes, ws2);
        proof {
            assert(tag_f()(t) == tag_u32s(t));
            assert(ws2@ =~= prev + tag_u32s(t));
            lemma_flat_push(m.tags.subrange(0, i as int), tag_f(), t);
            assert(m.tags.subrange(0, i + 1) =~= m.tags.subrange(0, i as int).push(t));
            assert(ws2@ =~= base + flat_records(m.tags.subrange(0, i + 1), tag_f()));
        }
        i = i + 1;
    }
    proof {
        assert(m.tags.subrange(0, m.tags.len() as int) =~= m.tags);
        assert(ws2@ =~= (ws + seq![m.tags.len() as u32]) + flat_records(m.tags, tag_f()));
    }
    ws2
}

#[verifier::loop_isolation(false)]
#[verifier::rlimit(100)]
fn emit_terms(d: &DB, out: &mut Vec<u8>, Ghost(ws): Ghost<Seq<u32>>) -> (r: Ghost<Seq<u32>>)
    requires
        old(out)@ == enc_u32_seq(ws),
        d@.terms.len() <= u32::MAX,
    ensures
        final(out)@ == enc_u32_seq(r@),
        r@ == ws + seq![d@.terms.len() as u32] + flat_records(d@.terms, term_f()),
{
    let ghost m = d@;
    let n = d.terms_len();
    let mut ws2 = emit_word(out, n as u32, Ghost(ws));
    let ghost base = ws + seq![m.terms.len() as u32];
    proof {
        assert(ws2@ =~= base + flat_records(m.terms.subrange(0, 0), term_f()));
    }
    let mut i: usize = 0;
    while i < n
        invariant
            0 <= i <= m.terms.len(),
            out@ == enc_u32_seq(ws2@),
            ws2@ == base + flat_records(m.terms.subrange(0, i as int), term_f()),
        decreases n - i,
    {
        let t = d.term_at(i);
        let ghost prev = ws2@;
        ws2 = emit_word(out, t.expression, ws2);
        ws2 = emit_word(out, t.reading, ws2);
        ws2 = emit_word(out, t.search_key, ws2);
        ws2 = emit_word(out, t.score, ws2);
        ws2 = emit_word(out, t.sequence, ws2);
        ws2 = emit_word(out, t.frequency, ws2);
        ws2 = emit_word(out, t.source, ws2);
        ws2 = emit_word(out, t.glossary.offset, ws2);
        ws2 = emit_word(out, t.glossary.length, ws2);
        ws2 = emit_word(out, t.rules.offset, ws2);
        ws2 = emit_word(out, t.rules.length, ws2);
        ws2 = emit_word(out, t.term_tags.offset, ws2);
        ws2 = emit_word(out, t.term_tags.length, ws2);
        ws2 = emit_word(out, t.definition_tags.offset, ws2);
        ws2 = emit_word(out, t.definition_tags.length, ws2);
        proof {
            assert(term_f()(t) == term_u32s(t));
            assert(ws2@ =~= prev + term_u32s(t));
            lemma_flat_push(m.terms.subrange(0, i as int), term_f(), t);
            assert(m.terms.subrange(0, i + 1) =~= m.terms.subrange(0, i as int).push(t));
            assert(ws2@ =~= base + flat_records(m.terms.subrange(0, i + 1), term_f()));
        }
        i = i + 1;
    }
    proof {
        assert(m.terms.subrange(0, m.terms.len() as int) =~= m.terms);
        assert(ws2@ =~= (ws + seq![m.terms.len() as u32]) + flat_records(m.terms, term_f()));
    }
    ws2
}

#[verifier::loop_isolation(false)]
#[verifier::rlimit(100)]
fn emit_kanji(d: &DB, out: &mut Vec<u8>, Ghost(ws): Ghost<Seq<u32>>) -> (r: Ghost<Seq<u32>>)
    requires
        old(out)@ == enc_u32_seq(ws),
        d@.kanji.len() <= u32::MAX,
    ensures
        final(out)@ == enc_u32_seq(r@),
        r@ == ws + seq![d@.kanji.len() as u32] + flat_records(d@.kanji, kanji_f()),
{
    let ghost m = d@;
    let n = d.kanji_len();
    let mut ws2 = emit_word(out, n as u32, Ghost(ws));
    let ghost base = ws + seq![m.kanji.len() as u32];
    proof {
        assert(ws2@ =~= base + flat_records(m.kanji.subrange(0, 0), kanji_f()));
    }
    let mut i: usize = 0;
    while i < n
        invariant
            0 <= i <= m.kanji.len(),
            out@ == enc_u32_seq(ws2@),
            ws2@ == base + flat_records(m.kanji.subrange(0, i as int), kanji_f()),
        decreases n - i,
    {
        let t = d.kanji_at(i);
        let ghost prev = ws2@;
        ws2 = emit_word(out, t.character, ws2);
        ws2 = emit_word(out, t.frequency, ws2);
        ws2 = emit_word(out, t.source, ws2);
        ws2 = emit_word(out, t.meanings.offset, ws2);
        ws2 = emit_word(out, t.meanings.length, ws2);
        ws2 = emit_word(out, t.onyomi.offset, ws2);
        ws2 = emit_word(out, t.onyomi.length, ws2);
        ws2 = emit_word(out, t.kunyomi.offset, ws2);
        ws2 = emit_word(out, t.kunyomi.length, ws2);
        ws2 = emit_word(out, t.tags.offset, ws2);
        ws2 = emit_word(out, t.tags.length, ws2);
        ws2 = emit_word(out, t.stats.offset, ws2);
        ws2 = emit_word(out, t.stats.length, ws2);
        proof {
            assert(kanji_f()(t) == kanji_u32s(t));
            assert(ws2@ =~= prev + kanji_u32s(t));
            lemma_flat_push(m.kanji.subrange(0, i as int), kanji_f(), t);
            assert(m.kanji.subrange(0, i + 1) =~= m.kanji.subrange(0, i as int).push(t));
            assert(ws2@ =~= base + flat_records(m.kanji.subrange(0, i + 1), kanji_f()));
        }
        i = i + 1;
    }
    proof {
        assert(m.kanji.subrange(0, m.kanji.len() as int) =~= m.kanji);
        assert(ws2@ =~= (ws + seq![m.kanji.len() as u32]) + flat_records(m.kanji, kanji_f()));
    }
    ws2
}

#[verifier::loop_isolation(false)]
fn emit_rows(d: &DB, suffix: bool, out: &mut Vec<u8>, Ghost(ws): Ghost<Seq<u32>>) -> (r: Ghost<
    Seq<u32>,
>)
    requires
        old(out)@ == enc_u32_seq(ws),
        d@.rows(suffix).len() <= u32::MAX,
    ensures
        final(out)@ == enc_u32_seq(r@),
        r@ == ws + seq![d@.rows(suffix).len() as u32] + flat_records(d@.rows(suffix), row_f()),
{
    let ghost rows = d@.rows(suffix);
    let n = if suffix {
        d.suffix_len()
    } else {
        d.prefix_len()
    };
    let mut ws2 = emit_word(out, n as u32, Ghost(ws));
    let ghost base = ws + seq![rows.len() as u32];
    proof {
        assert(ws2@ =~= base + flat_records(rows.subrange(0, 0), row_f()));
    }
    let mut i: usize = 0;
    while i < n
        invariant
            0 <= i <= rows.len(),
            out@ == enc_u32_seq(ws2@),
            ws2@ == base + flat_records(rows.subrange(0, i as int), row_f()),
        decreases n - i,
    {
        let t = if suffix {
            d.suffix_at(i)
        } else {
            d.prefix_at(i)
        };
        let ghost prev = ws2@;
        ws2 = emit_word(out, t.key, ws2);
        ws2 = emit_word(out, t.term, ws2);
        proof {
            assert(row_f()(t) == row_u32s(t));
            assert(ws2@ =~= prev + row_u32s(t));
            lemma_flat_push(rows.subrange(0, i as int), row_f(), t);
            assert(rows.subrange(0, i + 1) =~= rows.subrange(0, i as int).push(t));
            assert(ws2@ =~= base + flat_records(rows.subrange(0, i + 1), row_f()));
        }
        i = i + 1;
    }
    proof {
        assert(rows.subrange(0, rows.len() as int) =~= rows);
        assert(ws2@ =~= (ws + seq![rows.len() as u32]) + flat_records(rows, row_f()));
    }
    ws2
}

#[verifier::loop_isolation(false)]
fn emit_chars(d: &DB, out: &mut Vec<u8>, Ghost(ws): Ghost<Seq<u32>>) -> (r: Ghost<Seq<u32>>)
    requires
        old(out)@ == enc_u32_seq(ws),
        d@.index_chars_jp.len() <= u32::MAX,
    ensures
        final(out)@ == enc_u32_seq(r@),
        r@ == ws + seq![d@.index_chars_jp.len() as u32] + flat_records(
            d@.index_chars_jp,
            char_f(),
        ),
{
    let ghost m = d@;
    let n = d.chars_len();
    let mut ws2 = emit_word(out, n as u32, Ghost(ws));
    let ghost base = ws + seq![m.index_chars_jp.len() as u32];
    proof {
        assert(ws2@ =~= base + flat_records(m.index_chars_jp.subrange(0, 0), char_f()));
    }
    let mut i: usize = 0;
    while i < n
        invariant
            0 <= i <= m.index_chars_jp.len(),
            out@ == enc_u32_seq(ws2@),
            ws2@ == base + flat_records(m.index_chars_jp.subrange(0, i as int), char_f()),
        decreases n - i,
    {
        let t = d.chars_at(i);
        let ghost prev = ws2@;
        ws2 = emit_word(out, t.character, ws2);
        ws2 = emit_word(out, t.indexes.offset, ws2);
        ws2 = emit_word(out, t.indexes.length, ws2);
        proof {
            assert(char_f()(t) == char_u32s(t));
            assert(ws2@ =~= prev + char_u32s(t));
            lemma_flat_push(m.index_chars_jp.subrange(0, i as int), char_f(), t);
            assert(m.index_chars_jp.subrange(0, i + 1) =~= m.index_chars_jp.subrange(
                0,
                i as int,
            ).push(t));
            assert(ws2@ =~= base + flat_records(m.index_chars_jp.subrange(0, i + 1), char_f()));
        }
        i = i + 1;
    }
    proof {
        assert(m.index_chars_jp.subrange(0, m.index_chars_jp.len() as int) =~= m.index_chars_jp);
        assert(ws2@ =~= (ws + seq![m.index_chars_jp.len() as u32]) + flat_records(
            m.index_chars_jp,
            char_f(),
        ));
    }
    ws2
}

#[verifier::loop_isolation(false)]
fn emit_vector(d: &DB, out: &mut Vec<u8>, Ghost(ws): Ghost<Seq<u32>>) -> (r: Ghost<Seq<u32>>)
    requires
        old(out)@ == enc_u32_seq(ws),
        d@.vector_data.len() <= u32::MAX,
    ensures
        final(out)@ == enc_u32_seq(r@),
        r@ == ws + seq![d@.vector_data.len() as u32] + flat_records(d@.vector_data, u32_f()),
{
    let ghost m = d@;
    let n = d.vector_len();
    let mut ws2 = emit_word(out, n as u32, Ghost(ws));
    let ghost base = ws + seq![m.vector_data.len() as u32];
    proof {
        assert(ws2@ =~= base + flat_records(m.vector_data.subrange(0, 0), u32_f()));
    }
    let mut i: usize = 0;
    while i < n
        invariant
            0 <= i <= m.vector_data.len(),
            out@ == enc_u32_seq(ws2@),
            ws2@ == base + flat_records(m.vector_data.subrange(0, i as int), u32_f()),
        decreases n - i,
    {
        let t = d.vector_at(i);
        let ghost prev = ws2@;
        ws2 = emit_word(out, t, ws2);
        proof {
            assert(u32_f()(t) == u32_u32s(t));
            assert(ws2@ =~= prev + u32_u32s(t));
            lemma_flat_push(m.vector_data.subrange(0, i as int), u32_f(), t);
            assert(m.vector_data.subrange(0, i + 1) =~= m.vector_data.subrange(
                0,
                i as int,
            ).push(t));
            assert(ws2@ =~= base + flat_records(m.vector_data.subrange(0, i + 1), u32_f()));
        }
        i = i + 1;
    }
    proof {
        assert(m.vector_data.subrange(0, m.vector_data.len() as int) =~= m.vector_data);
        assert(ws2@ =~= (ws + seq![m.vector_data.len() as u32]) + flat_records(
            m.vector_data,
            u32_f(),
        ));
    }
    ws2
}

#[verifier::loop_isolation(false)]
fn emit_string_list(d: &DB, out: &mut Vec<u8>, Ghost(ws): Ghost<Seq<u32>>) -> (r: Ghost<Seq<u32>>)
    requires
        old(out)@ == enc_u32_seq(ws),
        d@.string_list.len() <= u32::MAX,
    ensures
        final(out)@ == enc_u32_seq(r@),
        r@ == ws + seq![d@.string_list.len() as u32] + flat_records(d@.string_list, strh_f()),
{
    let ghost m = d@;
    let n = d.strings_len();
    let mut ws2 = emit_word(out, n as u32, Ghost(ws));
    let ghost base = ws + seq![m.string_list.len() as u32];
    proof {
        assert(ws2@ =~= base + flat_records(m.string_list.subrange(0, 0), strh_f()));
    }
    let mut i: usize = 0;
    while i < n
        invariant
            0 <= i <= m.string_list.len(),
            out@ == enc_u32_seq(ws2@),
            ws2@ == base + flat_records(m.string_list.subrange(0, i as int), strh_f()),
        decreases n - i,
    {
        let t = d.strh_at(i);
        let ghost prev = ws2@;
        ws2 = emit_word(out, t.offset, ws2);
        ws2 = emit_word(out, t.length, ws2);
        proof {
            assert(strh_f()(t) == strh_u32s(t));
            assert(ws2@ =~= prev + strh_u32s(t));
            lemma_flat_push(m.string_list.subrange(0, i as int), strh_f(), t);
            assert(m.string_list.subrange(0, i + 1) =~= m.string_list.subrange(
                0,
                i as int,
            ).push(t));
            assert(ws2@ =~= base + flat_records(m.string_list.subrange(0, i + 1), strh_f()));
        }
        i = i + 1;
    }
    proof {
        assert(m.string_list.subrange(0, m.string_list.len() as int) =~= m.string_list);
        assert(ws2@ =~= (ws + seq![m.string_list.len() as u32]) + flat_records(
            m.string_list,
            strh_f(),
        ));
    }
    ws2
}

/// Streams the database out in the fixed section order of the format.
#[verifier::loop_isolation(false)]
pub(crate) fn emit_db(d: &DB) -> (r: Vec<u8>)
    requires
        d@.fits(),
    ensures
        r@ == encode_model(d@),
{
    let ghost m = d@;
    let mut out: Vec<u8> = Vec::new();
    let mut ws: Ghost<Seq<u32>> = Ghost(Seq::empty());
    proof {
        assert(out@ =~= enc_u32_seq(ws@));
    }
    ws = emit_tags(d, &mut out, ws);
    ws = emit_terms(d, &mut out, ws);
    ws = emit_kanji(d, &mut out, ws);
    ws = emit_rows(d, false, &mut out, ws);
    ws = emit_rows(d, true, &mut out, ws);
    ws = emit_chars(d, &mut out, ws);
    ws = emit_vector(d, &mut out, ws);
    ws = emit_string_list(d, &mut out, ws);
    let n_data = d.string_data_len();
    ws = emit_word(&mut out, n_data as u32, ws);
    proof {
        assert(ws@ =~= words(m));
    }
    let mut i9: usize = 0;
    while i9 < n_data
        invariant
            0 <= i9 <= m.string_data.len(),
            out@ == enc_u32_seq(words(m)) + m.string_data.subrange(0, i9 as int),
        decreases n_data - i9,
    {
        let b = d.string_data_at(i9);
        out.push(b);
        proof {
            assert(out@ =~= enc_u32_seq(words(m)) + m.string_data.subrange(0, i9 + 1));
        }
        i9 = i9 + 1;
    }
    proof {
        assert(m.string_data.subrange(0, m.string_data.len() as int) =~= m.string_data);
        assert(out@ == encode_model(m));
    }
    out
}

/// Reads word `w` of the blob.
fn read_word(bytes: &Vec<u8>, w: usize) -> (r: u32)
    requires
        4 * w + 4 <= bytes@.len(),
    ensures
        r == le32_val(bytes@.subrange(4 * (w as int), 4 * (w as int) + 4)),
{
    let l = bytes.len();
    assert(4 * w + 4 <= l);
    RawUint32::read_le(bytes, 4 * w).value
}

/// The parser's cursor invariant: `ws` holds the first `w` words and their
/// encoding is exactly the consumed byte prefix.
pub open spec fn cursor_ok(bytes: Seq<u8>, w: int, ws: Seq<u32>) -> bool {
    &&& ws.len() == w
    &&& 0 <= 4 * w <= bytes.len()
    &&& bytes.subrange(0, 4 * w) == enc_u32_seq(ws)
}

/// Consuming one more word preserves the cursor invariant.
proof fn lemma_extend_ws(bytes: Seq<u8>, ws: Seq<u32>, v: u32)
    requires
        cursor_ok(bytes, ws.len() as int, ws),
        4 * ws.len() + 4 <= bytes.len(),
        v == le32_val(bytes.subrange(4 * (ws.len() as int), 4 * (ws.len() as int) + 4)),
    ensures
        cursor_ok(bytes, ws.len() as int + 1, ws.push(v)),
{
    let w = ws.len() as int;
    lemma_enc_push(ws, v);
    lemma_le32_inverse(bytes.subrange(4 * w, 4 * w + 4));
    assert(bytes.subrange(0, 4 * (w + 1)) =~= bytes.subrange(0, 4 * w) + bytes.subrange(
        4 * w,
        4 * w + 4,
    ));
}

/// Parses one counted section of tag records.
#[verifier::loop_isolation(false)]
fn parse_tags(bytes: &Vec<u8>, w: usize, Ghost(ws): Ghost<Seq<u32>>) -> (r: Result<
    (Vec<TagRaw>, usize, Ghost<Seq<u32>>),
    DbError,
>)
    requires
        cursor_ok(bytes@, w as int, ws),
    ensures
        r matches Ok((tv, w2, ws2)) ==> cursor_ok(bytes@, w2 as int, ws2@) && tv@.len()
            <= u32::MAX && w2 == w + 1 + 4 * tv@.len() && ws2@ == ws + seq![tv@.len() as u32]
            + flat_records(tv@, tag_f()),
        r matches Err(e) ==> (e matches DbError::MalformedBlob { section, row } && section
            == Section::Tags) && (4 * w + 4 > bytes@.len() || 4 * ((w as int) + 1 + 4 * (le32_val(
            bytes@.subrange(4 * (w as int), 4 * (w as int) + 4),
        ) as int)) > bytes@.len()),
{
    let len = bytes.len();
    if len - 4 * w < 4 {
        return Err(DbError::MalformedBlob { section: Section::Tags, row: 0 });
    }
    let c = read_word(bytes, w);
    let count = c as usize;
    let mut tv: Vec<TagRaw> = Vec::new();
    let mut w2: usize = w + 1;
    let mut ws2: Ghost<Seq<u32>> = Ghost(ws.push(c));
    proof {
        lemma_extend_ws(bytes@, ws, c);
        assert(ws2@ =~= (ws + seq![c]) + flat_records(tv@, tag_f()));
    }
    let mut i: usize = 0;
    while i < count
        invariant
            0 <= i <= count,
            tv@.len() == i,
            w2 == w + 1 + 4 * i,
            cursor_ok(bytes@, w2 as int, ws2@),
            ws2@ == (ws + seq![c]) + flat_records(tv@, tag_f()),
        decreases count - i,
    {
        if len - 4 * w2 < 16 {
            proof {
                assert(4 * ((w as int) + 1 + 4 * (c as int)) > bytes@.len());
            }
            return Err(DbError::MalformedBlob { section: Section::Tags, row: i });
        }
        let v0 = read_word(bytes, w2);
        let v1 = read_word(bytes, w2 + 1);
        let v2 = read_word(bytes, w2 + 2);
        let v3 = read_word(bytes, w2 + 3);
        let t = TagRaw { name: v0, category: v1, order: v2, notes: v3 };
        let ghost prev = tv@;
        proof {
            lemma_extend_ws(bytes@, ws2@, v0);
            lemma_extend_ws(bytes@, ws2@.push(v0), v1);
            lemma_extend_ws(bytes@, ws2@.push(v0).push(v1), v2);
            lemma_extend_ws(bytes@, ws2@.push(v0).push(v1).push(v2), v3);
            lemma_flat_push(prev, tag_f(), t);
            assert(tag_f()(t) == tag_u32s(t));
            assert(ws2@.push(v0).push(v1).push(v2).push(v3) =~= (ws + seq![c]) + flat_records(
                prev.push(t),
                tag_f(),
            ));
        }
        tv.push(t);
        ws2 = Ghost(ws2@.push(v0).push(v1).push(v2).push(v3));
        w2 = w2 + 4;
        i = i + 1;
    }
    Ok((tv, w2, ws2))
}

/// Parses one counted section of term records.
#[verifier::loop_isolation(false)]
#[verifier::rlimit(100)]
fn parse_terms(bytes: &Vec<u8>, w: usize, Ghost(ws): Ghost<Seq<u32>>) -> (r: Result<
    (Vec<TermRaw>, usize, Ghost<Seq<u32>>),
    DbError,
>)
    requires
        cursor_ok(bytes@, w as int, ws),
    ensures
        r matches Ok((tv, w2, ws2)) ==> cursor_ok(bytes@, w2 as int, ws2@) && tv@.len()
            <= u32::MAX && w2 == w + 1 + 15 * tv@.len() && ws2@ == ws + seq![tv@.len() as u32]
            + flat_records(tv@, term_f()),
        r matches Err(e) ==> (e matches DbError::MalformedBlob { section, row } && section
            == Section::Terms) && (4 * w + 4 > bytes@.len() || 4 * ((w as int) + 1 + 15 * (
        le32_val(bytes@.subrange(4 * (w as int), 4 * (w as int) + 4)) as int)) > bytes@.len()),
{
    let len = bytes.len();
    if len - 4 * w < 4 {
        return Err(DbError::MalformedBlob { section: Section::Terms, row: 0 });
    }
    let c = read_word(bytes, w);
    let count = c as usize;
    let mut tv: Vec<TermRaw> = Vec::new();
    let mut w2: usize = w + 1;
    let mut ws2: Ghost<Seq<u32>> = Ghost(ws.push(c));
    proof {
        lemma_extend_ws(bytes@, ws, c);
        assert(ws2@ =~= (ws + seq![c]) + flat_records(tv@, term_f()));
    }
    let mut i: usize = 0;
    while i < count
        invariant
            0 <= i <= count,
            tv@.len() == i,
            w2 == w + 1 + 15 * i,
            cursor_ok(bytes@, w2 as int, ws2@),
            ws2@ == (ws + seq![c]) + flat_records(tv@, term_f()),
        decreases count - i,
    {
        if len - 4 * w2 < 60 {
            proof {
                assert(4 * ((w as int) + 1 + 15 * (c as int)) > bytes@.len());
            }
            return Err(DbError::MalformedBlob { section: Section::Terms, row: i });
        }
        let v0 = read_word(bytes, w2);
        let v1 = read_word(bytes, w2 + 1);
        let v2 = read_word(bytes, w2 + 2);
        let v3 = read_word(bytes, w2 + 3);
        let v4 = read_word(bytes, w2 + 4);
        let v5 = read_word(bytes, w2 + 5);
        let v6 = read_word(bytes, w2 + 6);
        let v7 = read_word(bytes, w2 + 7);
        let v8 = read_word(bytes, w2 + 8);
        let v9 = read_word(bytes, w2 + 9);
        let v10 = read_word(bytes, w2 + 10);
        let v11 = read_word(bytes, w2 + 11);
        let v12 = read_word(bytes, w2 + 12);
        let v13 = read_word(bytes, w2 + 13);
        let v14 = read_word(bytes, w2 + 14);
        let t = TermRaw {
            expression: v0,
            reading: v1,
            search_key: v2,
            score: v3,
            sequence: v4,
            frequency: v5,
            source: v6,
            glossary: VecHandle { offset: v7, length: v8 },
            rules: VecHandle { offset: v9, length: v10 },
            term_tags: VecHandle { offset: v11, length: v12 },
            definition_tags: VecHandle { offset: v13, length: v14 },
        };
        let ghost prev = tv@;
        let ghost pushed = ws2@.push(v0).push(v1).push(v2).push(v3).push(v4).push(v5).push(
            v6,
        ).push(v7).push(v8).push(v9).push(v10).push(v11).push(v12).push(v13).push(v14);
        proof {
            lemma_extend_ws(bytes@, ws2@, v0);
            lemma_extend_ws(bytes@, ws2@.push(v0), v1);
            lemma_extend_ws(bytes@, ws2@.push(v0).push(v1), v2);
            lemma_extend_ws(bytes@, ws2@.push(v0).push(v1).push(v2), v3);
            lemma_extend_ws(bytes@, ws2@.push(v0).push(v1).push(v2).push(v3), v4);
            lemma_extend_ws(bytes@, ws2@.push(v0).push(v1).push(v2).push(v3).push(v4), v5);
            lemma_extend_ws(
                bytes@,
                ws2@.push(v0).push(v1).push(v2).push(v3).push(v4).push(v5),
                v6,
            );
            lemma_extend_ws(
                bytes@,
                ws2@.push(v0).push(v1).push(v2).push(v3).push(v4).push(v5).push(v6),
                v7,
            );
            lemma_extend_ws(
                bytes@,
                ws2@.push(v0).push(v1).push(v2).push(v3).push(v4).push(v5).push(v6).push(v7),
                v8,
            );
            lemma_extend_ws(
                bytes@,
                ws2@.push(v0).push(v1).push(v2).push(v3).push(v4).push(v5).push(v6).push(v7).push(
                    v8,
                ),
                v9,
            );
            lemma_extend_ws(
                bytes@,
                ws2@.push(v0).push(v1).push(v2).push(v3).push(v4).push(v5).push(v6).push(v7).push(
                    v8,
                ).push(v9),
                v10,
            );
            lemma_extend_ws(
                bytes@,
                ws2@.push(v0).push(v1).push(v2).push(v3).push(v4).push(v5).push(v6).push(v7).push(
                    v8,
                ).push(v9).push(v10),
                v11,
            );
            lemma_extend_ws(
                bytes@,
                ws2@.push(v0).push(v1).push(v2).push(v3).push(v4).push(v5).push(v6).push(v7).push(
                    v8,
                ).push(v9).push(v10).push(v11),
                v12,
            );
            lemma_extend_ws(
                bytes@,
                ws2@.push(v0).push(v1).push(v2).push(v3).push(v4).push(v5).push(v6).push(v7).push(
                    v8,
                ).push(v9).push(v10).push(v11).push(v12),
                v13,
            );
            lemma_extend_ws(
                bytes@,
                ws2@.push(v0).push(v1).push(v2).push(v3).push(v4).push(v5).push(v6).push(v7).push(
                    v8,
                ).push(v9).push(v10).push(v11).push(v12).push(v13),
                v14,
            );
            lemma_flat_push(prev, term_f(), t);
            assert(term_f()(t) == term_u32s(t));
            assert(pushed =~= (ws + seq![c]) + flat_records(prev.push(t), term_f()));
        }
        tv.push(t);
        ws2 = Ghost(pushed);
        w2 = w2 + 15;
        i = i + 1;
    }
    Ok((tv, w2, ws2))
}

/// Parses one counted section of kanji records.
#[verifier::loop_isolation(false)]
#[verifier::rlimit(100)]
fn parse_kanji(bytes: &Vec<u8>, w: usize, Ghost(ws): Ghost<Seq<u32>>) -> (r: Result<
    (Vec<KanjiRaw>, usize, Ghost<Seq<u32>>),
    DbError,
>)
    requires
        cursor_ok(bytes@, w as int, ws),
    ensures
        r matches Ok((tv, w2, ws2)) ==> cursor_ok(bytes@, w2 as int, ws2@) && tv@.len()
            <= u32::MAX && w2 == w + 1 + 13 * tv@.len() && ws2@ == ws + seq![tv@.len() as u32]
            + flat_records(tv@, kanji_f()),
        r matches Err(e) ==> (e matches DbError::MalformedBlob { section, row } && section
            == Section::Kanji) && (4 * w + 4 > bytes@.len() || 4 * ((w as int) + 1 + 13 * (
        le32_val(bytes@.subrange(4 * (w as int), 4 * (w as int) + 4)) as int)) > bytes@.len()),
{
    let len = bytes.len();
    if len - 4 * w < 4 {
        return Err(DbError::MalformedBlob { section: Section::Kanji, row: 0 });
    }
    let c = read_word(bytes, w);
    let count = c as usize;
    let mut tv: Vec<KanjiRaw> = Vec::new();
    let mut w2: usize = w + 1;
    let mut ws2: Ghost<Seq<u32>> = Ghost(ws.push(c));
    proof {
        lemma_extend_ws(bytes@, ws, c);
        assert(ws2@ =~= (ws + seq![c]) + flat_records(tv@, kanji_f()));
    }
    let mut i: usize = 0;
    while i < count
        invariant
            0 <= i <= count,
            tv@.len() == i,
            w2 == w + 1 + 13 * i,
            cursor_ok(bytes@, w2 as int, ws2@),
            ws2@ == (ws + seq![c]) + flat_records(tv@, kanji_f()),
        decreases count - i,
    {
        if len - 4 * w2 < 52 {
            proof {
                assert(4 * ((w as int) + 1 + 13 * (c as int)) > bytes@.len());
            }
            return Err(DbError::MalformedBlob { section: Section::Kanji, row: i });
        }
        let v0 = read_word(bytes, w2);
        let v1 = read_word(bytes, w2 + 1);
        let v2 = read_word(bytes, w2 + 2);
        let v3 = read_word(bytes, w2 + 3);
        let v4 = read_word(bytes, w2 + 4);
        let v5 = read_word(bytes, w2 + 5);
        let v6 = read_word(bytes, w2 + 6);
        let v7 = read_word(bytes, w2 + 7);
        let v8 = read_word(bytes, w2 + 8);
        let v9 = read_word(bytes, w2 + 9);
        let v10 = read_word(bytes, w2 + 10);
        let v11 = read_word(bytes, w2 + 11);
        let v12 = read_word(bytes, w2 + 12);
        let t = KanjiRaw {
            character: v0,
            frequency: v1,
            source: v2,
            meanings: VecHandle { offset: v3, length: v4 },
            onyomi: VecHandle { offset: v5, length: v6 },
            kunyomi: VecHandle { offset: v7, length: v8 },
            tags: VecHandle { offset: v9, length: v10 },
            stats: VecHandle { offset: v11, length: v12 },
        };
        let ghost prev = tv@;
        let ghost pushed = ws2@.push(v0).push(v1).push(v2).push(v3).push(v4).push(v5).push(
            v6,
        ).push(v7).push(v8).push(v9).push(v10).push(v11).push(v12);
        proof {
            lemma_extend_ws(bytes@, ws2@, v0);
            lemma_extend_ws(bytes@, ws2@.push(v0), v1);
            lemma_extend_ws(bytes@, ws2@.push(v0).push(v1), v2);
            lemma_extend_ws(bytes@, ws2@.push(v0).push(v1).push(v2), v3);
            lemma_extend_ws(bytes@, ws2@.push(v0).push(v1).push(v2).push(v3), v4);
            lemma_extend_ws(bytes@, ws2@.push(v0).push(v1).push(v2).push(v3).push(v4), v5);
            lemma_extend_ws(
                bytes@,
                ws2@.push(v0).push(v1).push(v2).push(v3).push(v4).push(v5),
                v6,
            );
            lemma_extend_ws(
                bytes@,
                ws2@.push(v0).push(v1).push(v2).push(v3).push(v4).push(v5).push(v6),
                v7,
            );
            lemma_extend_ws(
                bytes@,
                ws2@.push(v0).push(v1).push(v2).push(v3).push(v4).push(v5).push(v6).push(v7),
                v8,
            );
            lemma_extend_ws(
                bytes@,
                ws2@.push(v0).push(v1).push(v2).push(v3).push(v4).push(v5).push(v6).push(v7).push(
                    v8,
                ),
                v9,
            );
            lemma_extend_ws(
                bytes@,
                ws2@.push(v0).push(v1).push(v2).push(v3).push(v4).push(v5).push(v6).push(v7).push(
                    v8,
                ).push(v9),
                v10,
            );
            lemma_extend_ws(
                bytes@,
                ws2@.push(v0).push(v1).push(v2).push(v3).push(v4).push(v5).push(v6).push(v7).push(
                    v8,
                ).push(v9).push(v10),
                v11,
            );
            lemma_extend_ws(
                bytes@,
                ws2@.push(v0).push(v1).push(v2).push(v3).push(v4).push(v5).push(v6).push(v7).push(
                    v8,
                ).push(v9).push(v10).push(v11),
                v12,
            );
            lemma_flat_push(prev, kanji_f(), t);
            assert(kanji_f()(t) == kanji_u32s(t));
            assert(pushed =~= (ws + seq![c]) + flat_records(prev.push(t), kanji_f()));
        }
        tv.push(t);
        ws2 = Ghost(pushed);
        w2 = w2 + 13;
        i = i + 1;
    }
    Ok((tv, w2, ws2))
}

/// Parses one counted section of index rows.
#[verifier::loop_isolation(false)]
fn parse_rows(bytes: &Vec<u8>, w: usize, which: Section, Ghost(ws): Ghost<Seq<u32>>) -> (r: Result<
    (Vec<TermIndex>, usize, Ghost<Seq<u32>>),
    DbError,
>)
    requires
        cursor_ok(bytes@, w as int, ws),
    ensures
        r matches Ok((tv, w2, ws2)) ==> cursor_ok(bytes@, w2 as int, ws2@) && tv@.len()
            <= u32::MAX && w2 == w + 1 + 2 * tv@.len() && ws2@ == ws + seq![tv@.len() as u32]
            + flat_records(tv@, row_f()),
        r matches Err(e) ==> (e matches DbError::MalformedBlob { section, row } && section
            == which) && (4 * w + 4 > bytes@.len() || 4 * ((w as int) + 1 + 2 * (le32_val(
            bytes@.subrange(4 * (w as int), 4 * (w as int) + 4),
        ) as int)) > bytes@.len()),
{
    let len = bytes.len();
    if len - 4 * w < 4 {
        return Err(DbError::MalformedBlob { section: which, row: 0 });
    }
    let c = read_word(bytes, w);
    let count = c as usize;
    let mut tv: Vec<TermIndex> = Vec::new();
    let mut w2: usize = w + 1;
    let mut ws2: Ghost<Seq<u32>> = Ghost(ws.push(c));
    proof {
        lemma_extend_ws(bytes@, ws, c);
        assert(ws2@ =~= (ws + seq![c]) + flat_records(tv@, row_f()));
    }
    let mut i: usize = 0;
    while i < count
        invariant
            0 <= i <= count,
            tv@.len() == i,
            w2 == w + 1 + 2 * i,
            cursor_ok(bytes@, w2 as int, ws2@),
            ws2@ == (ws + seq![c]) + flat_records(tv@, row_f()),
        decreases count - i,
    {
        if len - 4 * w2 < 8 {
            proof {
                assert(4 * ((w as int) + 1 + 2 * (c as int)) > bytes@.len());
            }
            return Err(DbError::MalformedBlob { section: which, row: i });
        }
        let v0 = read_word(bytes, w2);
        let v1 = read_word(bytes, w2 + 1);
        let t = TermIndex { key: v0, term: v1 };
        let ghost prev = tv@;
        proof {
            lemma_extend_ws(bytes@, ws2@, v0);
            lemma_extend_ws(bytes@, ws2@.push(v0), v1);
            lemma_flat_push(prev, row_f(), t);
            assert(row_f()(t) == row_u32s(t));
            assert(ws2@.push(v0).push(v1) =~= (ws + seq![c]) + flat_records(
                prev.push(t),
                row_f(),
            ));
        }
        tv.push(t);
        ws2 = Ghost(ws2@.push(v0).push(v1));
        w2 = w2 + 2;
        i = i + 1;
    }
    Ok((tv, w2, ws2))
}

/// Parses the character index section.
#[verifier::loop_isolation(false)]
fn parse_chars(bytes: &Vec<u8>, w: usize, Ghost(ws): Ghost<Seq<u32>>) -> (r: Result<
    (Vec<CharIndex>, usize, Ghost<Seq<u32>>),
    DbError,
>)
    requires
        cursor_ok(bytes@, w as int, ws),
    ensures
        r matches Ok((tv, w2, ws2)) ==> cursor_ok(bytes@, w2 as int, ws2@) && tv@.len()
            <= u32::MAX && w2 == w + 1 + 3 * tv@.len() && ws2@ == ws + seq![tv@.len() as u32]
            + flat_records(tv@, char_f()),
        r matches Err(e) ==> (e matches DbError::MalformedBlob { section, row } && section
            == Section::IndexChars) && (4 * w + 4 > bytes@.len() || 4 * ((w as int) + 1 + 3 * (
        le32_val(bytes@.subrange(4 * (w as int), 4 * (w as int) + 4)) as int)) > bytes@.len()),
{
    let len = bytes.len();
    if len - 4 * w < 4 {
        return Err(DbError::MalformedBlob { section: Section::IndexChars, row: 0 });
    }
    let c = read_word(bytes, w);
    let count = c as usize;
    let mut tv: Vec<CharIndex> = Vec::new();
    let mut w2: usize = w + 1;
    let mut ws2: Ghost<Seq<u32>> = Ghost(ws.push(c));
    proof {
        lemma_extend_ws(bytes@, ws, c);
        assert(ws2@ =~= (ws + seq![c]) + flat_records(tv@, char_f()));
    }
    let mut i: usize = 0;
    while i < count
        invariant
            0 <= i <= count,
            tv@.len() == i,
            w2 == w + 1 + 3 * i,
            cursor_ok(bytes@, w2 as int, ws2@),
            ws2@ == (ws + seq![c]) + flat_records(tv@, char_f()),
        decreases count - i,
    {
        if len - 4 * w2 < 12 {
            proof {
                assert(4 * ((w as int) + 1 + 3 * (c as int)) > bytes@.len());
            }
            return Err(DbError::MalformedBlob { section: Section::IndexChars, row: i });
        }
        let v0 = read_word(bytes, w2);
        let v1 = read_word(bytes, w2 + 1);
        let v2 = read_word(bytes, w2 + 2);
        let t = CharIndex { character: v0, indexes: VecHandle { offset: v1, length: v2 } };
        let ghost prev = tv@;
        proof {
            lemma_extend_ws(bytes@, ws2@, v0);
            lemma_extend_ws(bytes@, ws2@.push(v0), v1);
            lemma_extend_ws(bytes@, ws2@.push(v0).push(v1), v2);
            lemma_flat_push(prev, char_f(), t);
            assert(char_f()(t) == char_u32s(t));
            assert(ws2@.push(v0).push(v1).push(v2) =~= (ws + seq![c]) + flat_records(
                prev.push(t),
                char_f(),
            ));
        }
        tv.push(t);
        ws2 = Ghost(ws2@.push(v0).push(v1).push(v2));
        w2 = w2 + 3;
        i = i + 1;
    }
    Ok((tv, w2, ws2))
}

/// Parses the vector arena section.
#[verifier::loop_isolation(false)]
fn parse_vector(bytes: &Vec<u8>, w: usize, Ghost(ws): Ghost<Seq<u32>>) -> (r: Result<
    (Vec<u32>, usize, Ghost<Seq<u32>>),
    DbError,
>)
    requires
        cursor_ok(bytes@, w as int, ws),
    ensures
        r matches Ok((tv, w2, ws2)) ==> cursor_ok(bytes@, w2 as int, ws2@) && tv@.len()
            <= u32::MAX && w2 == w + 1 + tv@.len() && ws2@ == ws + seq![tv@.len() as u32]
            + flat_records(tv@, u32_f()),
        r matches Err(e) ==> (e matches DbError::MalformedBlob { section, row } && section
            == Section::VectorData) && (4 * w + 4 > bytes@.len() || 4 * ((w as int) + 1 + (
        le32_val(bytes@.subrange(4 * (w as int), 4 * (w as int) + 4)) as int)) > bytes@.len()),
{
    let len = bytes.len();
    if len - 4 * w < 4 {
        return Err(DbError::MalformedBlob { section: Section::VectorData, row: 0 });
    }
    let c = read_word(bytes, w);
    let count = c as usize;
    let mut tv: Vec<u32> = Vec::new();
    let mut w2: usize = w + 1;
    let mut ws2: Ghost<Seq<u32>> = Ghost(ws.push(c));
    proof {
        lemma_extend_ws(bytes@, ws, c);
        assert(ws2@ =~= (ws + seq![c]) + flat_records(tv@, u32_f()));
    }
    let mut i: usize = 0;
    while i < count
        invariant
            0 <= i <= count,
            tv@.len() == i,
            w2 == w + 1 + i,
            cursor_ok(bytes@, w2 as int, ws2@),
            ws2@ == (ws + seq![c]) + flat_records(tv@, u32_f()),
        decreases count - i,
    {
        if len - 4 * w2 < 4 {
            proof {
                assert(4 * ((w as int) + 1 + (c as int)) > bytes@.len());
            }
            return Err(DbError::MalformedBlob { section: Section::VectorData, row: i });
        }
        let v0 = read_word(bytes, w2);
        let ghost prev = tv@;
        proof {
            lemma_extend_ws(bytes@, ws2@, v0);
            lemma_flat_push(prev, u32_f(), v0);
            assert(u32_f()(v0) == u32_u32s(v0));
            assert(ws2@.push(v0) =~= (ws + seq![c]) + flat_records(prev.push(v0), u32_f()));
        }
        tv.push(v0);
        ws2 = Ghost(ws2@.push(v0));
        w2 = w2 + 1;
        i = i + 1;
    }
    Ok((tv, w2, ws2))
}

/// Parses the string handle list section.
#[verifier::loop_isolation(false)]
fn parse_strhs(bytes: &Vec<u8>, w: usize, Ghost(ws): Ghost<Seq<u32>>) -> (r: Result<
    (Vec<StrHandle>, usize, Ghost<Seq<u32>>),
    DbError,
>)
    requires
        cursor_ok(bytes@, w as int, ws),
    ensures
        r matches Ok((tv, w2, ws2)) ==> cursor_ok(bytes@, w2 as int, ws2@) && tv@.len()
            <= u32::MAX && w2 == w + 1 + 2 * tv@.len() && ws2@ == ws + seq![tv@.len() as u32]
            + flat_records(tv@, strh_f()),
        r matches Err(e) ==> (e matches DbError::MalformedBlob { section, row } && section
            == Section::StringList) && (4 * w + 4 > bytes@.len() || 4 * ((w as int) + 1 + 2 * (
        le32_val(bytes@.subrange(4 * (w as int), 4 * (w as int) + 4)) as int)) > bytes@.len()),
{
    let len = bytes.len();
    if len - 4 * w < 4 {
        return Err(DbError::MalformedBlob { section: Section::StringList, row: 0 });
    }
    let c = read_word(bytes, w);
    let count = c as usize;
    let mut tv: Vec<StrHandle> = Vec::new();
    let mut w2: usize = w + 1;
    let mut ws2: Ghost<Seq<u32>> = Ghost(ws.push(c));
    proof {
        lemma_extend_ws(bytes@, ws, c);
        assert(ws2@ =~= (ws + seq![c]) + flat_records(tv@, strh_f()));
    }
    let mut i: usize = 0;
    while i < count
        invariant
            0 <= i <= count,
            tv@.len() == i,
            w2 == w + 1 + 2 * i,
            cursor_ok(bytes@, w2 as int, ws2@),
            ws2@ == (ws + seq![c]) + flat_records(tv@, strh_f()),
        decreases count - i,
    {
        if len - 4 * w2 < 8 {
            proof {
                assert(4 * ((w as int) + 1 + 2 * (c as int)) > bytes@.len());
            }
            return Err(DbError::MalformedBlob { section: Section::StringList, row: i });
        }
        let v0 = read_word(bytes, w2);
        let v1 = read_word(bytes, w2 + 1);
        let t = StrHandle { offset: v0, length: v1 };
        let ghost prev = tv@;
        proof {
            lemma_extend_ws(bytes@, ws2@, v0);
            lemma_extend_ws(bytes@, ws2@.push(v0), v1);
            lemma_flat_push(prev, strh_f(), t);
            assert(strh_f()(t) == strh_u32s(t));
            assert(ws2@.push(v0).push(v1) =~= (ws + seq![c]) + flat_records(
                prev.push(t),
                strh_f(),
            ));
        }
        tv.push(t);
        ws2 = Ghost(ws2@.push(v0).push(v1));
        w2 = w2 + 2;
        i = i + 1;
    }
    Ok((tv, w2, ws2))
}

/// `m` is a model that the byte blob is the exact encoding of.
pub open spec fn good(bytes: Seq<u8>, m: DbModel) -> bool {
    m.fits() && bytes == encode_model(m)
}

/// Word `j` of the consumed prefix, recovered from the bytes.
proof fn lemma_ws_word(bytes: Seq<u8>, w: int, ws: Seq<u32>, j: int)
    requires
        cursor_ok(bytes, w, ws),
        0 <= j < w,
    ensures
        ws[j] == le32_val(bytes.subrange(4 * j, 4 * j + 4)),
{
    lemma_enc_index(ws, j);
    assert(bytes.subrange(4 * j, 4 * j + 4) =~= bytes.subrange(0, 4 * w).subrange(
        4 * j,
        4 * j + 4,
    ));
    lemma_le32_round_trip(ws[j]);
}

/// Under a `good` model, the blob holds at least all of its words.
proof fn lemma_good_len(bytes: Seq<u8>, m: DbModel)
    requires
        good(bytes, m),
    ensures
        bytes.len() == 4 * words(m).len() + m.string_data.len(),
        words(m).len() == p_dc(m) + 1,
        0 < p_terms_c(m) < p_kanji_c(m) < p_pre_c(m) < p_suf_c(m) < p_chr_c(m) < p_vec_c(m)
            < p_strl_c(m) < p_dc(m),
{
    lemma_enc_len(words(m));
    lemma_section_lens(m);
}

/// A counted section read at the count position of a `good` model never runs
/// out of bytes: the words of the whole section are present.
proof fn lemma_no_underrun(bytes: Seq<u8>, m: DbModel, w: int, width: int, n: int, next: int)
    requires
        good(bytes, m),
        0 <= w,
        width >= 1,
        n >= 0,
        next == w + 1 + width * n,
        next <= p_dc(m) + 1,
        words(m)[w] == n as u32,
        n <= u32::MAX,
    ensures
        4 * w + 4 <= bytes.len(),
        4 * (w + 1 + width * (le32_val(bytes.subrange(4 * w, 4 * w + 4)) as int)) <= bytes.len(),
        le32_val(bytes.subrange(4 * w, 4 * w + 4)) as int == n,
    decreases 0int,
{
    lemma_good_len(bytes, m);
    lemma_word_at(m, bytes, w);
    assert(le32_val(bytes.subrange(4 * w, 4 * w + 4)) == n as u32);
    assert((n as u32) as int == n);
    assert(4 * next <= 4 * words(m).len());
}

/// The records parsed out of a section equal the `good` model's records:
/// both sides are decoded from the same words.  One lemma per section.
#[verifier::spinoff_prover]
proof fn lemma_stage_tags(bytes: Seq<u8>, m: DbModel, ws_in: Seq<u32>, tv: Seq<TagRaw>, ws2: Seq<u32>)
    requires
        good(bytes, m),
        ws_in.len() == 0,
        tv.len() <= u32::MAX,
        ws2 == ws_in + seq![tv.len() as u32] + flat_records(tv, tag_f()),
        cursor_ok(bytes, 1 + 4 * (tv.len() as int), ws2),
    ensures
        tv == m.tags,
        ws2.len() == p_terms_c(m),
{
    lemma_words_counts(m);
    lemma_good_len(bytes, m);
    lemma_flat_len(tv, tag_f(), 4);
    lemma_word_at(m, bytes, 0);
    lemma_ws_word(bytes, ws2.len() as int, ws2, 0);
    assert(ws2[0] == tv.len() as u32);
    assert(tv.len() == m.tags.len());
    assert forall|i: int| 0 <= i < tv.len() implies tv[i] == m.tags[i] by {
        lemma_words_tag_at(m, i);
        lemma_flat_index(tv, tag_f(), 4, i);
        let base = 1 + 4 * i;
        lemma_ws_word(bytes, ws2.len() as int, ws2, base);
        lemma_ws_word(bytes, ws2.len() as int, ws2, base + 1);
        lemma_ws_word(bytes, ws2.len() as int, ws2, base + 2);
        lemma_ws_word(bytes, ws2.len() as int, ws2, base + 3);
        lemma_word_at(m, bytes, base);
        lemma_word_at(m, bytes, base + 1);
        lemma_word_at(m, bytes, base + 2);
        lemma_word_at(m, bytes, base + 3);
        let ft = flat_records(tv, tag_f());
        assert(ws2[base] == ft[4 * i] && ws2[base + 1] == ft[4 * i + 1] && ws2[base + 2] == ft[4
            * i + 2] && ws2[base + 3] == ft[4 * i + 3]);
        assert(ft.subrange(4 * i, 4 * i + 4) == tag_u32s(tv[i]));
        assert(ft[4 * i] == tag_u32s(tv[i])[0] && ft[4 * i + 1] == tag_u32s(tv[i])[1] && ft[4 * i
            + 2] == tag_u32s(tv[i])[2] && ft[4 * i + 3] == tag_u32s(tv[i])[3]);
        assert(words(m).subrange(base, base + 4) == tag_u32s(m.tags[i]));
        assert(words(m)[base] == tag_u32s(m.tags[i])[0] && words(m)[base + 1] == tag_u32s(
            m.tags[i],
        )[1] && words(m)[base + 2] == tag_u32s(m.tags[i])[2] && words(m)[base + 3] == tag_u32s(
            m.tags[i],
        )[3]);
    }
    assert(tv =~= m.tags);
}

#[verifier::rlimit(100)]
#[verifier::spinoff_prover]
proof fn lemma_term_rec_eq(
    bytes: Seq<u8>,
    m: DbModel,
    ws_in: Seq<u32>,
    tv: Seq<TermRaw>,
    ws2: Seq<u32>,
    i: int,
)
    requires
        good(bytes, m),
        ws_in.len() == p_terms_c(m),
        tv.len() == m.terms.len(),
        ws2 == ws_in + seq![tv.len() as u32] + flat_records(tv, term_f()),
        cursor_ok(bytes, ws_in.len() as int + 1 + 15 * (tv.len() as int), ws2),
        0 <= i < tv.len(),
    ensures
        tv[i] == m.terms[i],
{
    lemma_words_counts(m);
    lemma_good_len(bytes, m);
    lemma_flat_len(tv, term_f(), 15);
    lemma_words_term_at(m, i);
    lemma_flat_index(tv, term_f(), 15, i);
    let base = p_terms_c(m) + 1 + 15 * i;
    let ft = flat_records(tv, term_f());
    let wm = words(m);
    assert(ft.subrange(15 * i, 15 * i + 15) == term_u32s(tv[i]));
    assert(wm.subrange(base, base + 15) == term_u32s(m.terms[i]));
    lemma_ws_word(bytes, ws2.len() as int, ws2, base);
    lemma_word_at(m, bytes, base);
    assert(ws2[base] == ft[15 * i]);
    assert(ft[15 * i] == ft.subrange(15 * i, 15 * i + 15)[0]);
    assert(wm[base] == wm.subrange(base, base + 15)[0]);
    lemma_ws_word(bytes, ws2.len() as int, ws2, base + 1);
    lemma_word_at(m, bytes, base + 1);
    assert(ws2[base + 1] == ft[15 * i + 1]);
    assert(ft[15 * i + 1] == ft.subrange(15 * i, 15 * i + 15)[1]);
    assert(wm[base + 1] == wm.subrange(base, base + 15)[1]);
    lemma_ws_word(bytes, ws2.len() as int, ws2, base + 2);
    lemma_word_at(m, bytes, base + 2);
    assert(ws2[base + 2] == ft[15 * i + 2]);
    assert(ft[15 * i + 2] == ft.subrange(15 * i, 15 * i + 15)[2]);
    assert(wm[base + 2] == wm.subrange(base, base + 15)[2]);
    lemma_ws_word(bytes, ws2.len() as int, ws2, base + 3);
    lemma_word_at(m, bytes, base + 3);
    assert(ws2[base + 3] == ft[15 * i + 3]);
    assert(ft[15 * i + 3] == ft.subrange(15 * i, 15 * i + 15)[3]);
    assert(wm[base + 3] == wm.subrange(base, base + 15)[3]);
    lemma_ws_word(bytes, ws2.len() as int, ws2, base + 4);
    lemma_word_at(m, bytes, base + 4);
    assert(ws2[base + 4] == ft[15 * i + 4]);
    assert(ft[15 * i + 4] == ft.subrange(15 * i, 15 * i + 15)[4]);
    assert(wm[base + 4] == wm.subrange(base, base + 15)[4]);
    lemma_ws_word(bytes, ws2.len() as int, ws2, base + 5);
    lemma_word_at(m, bytes, base + 5);
    assert(ws2[base + 5] == ft[15 * i + 5]);
    assert(ft[15 * i + 5] == ft.subrange(15 * i, 15 * i + 15)[5]);
    assert(wm[base + 5] == wm.subrange(base, base + 15)[5]);
    lemma_ws_word(bytes, ws2.len() as int, ws2, base + 6);
    lemma_word_at(m, bytes, base + 6);
    assert(ws2[base + 6] == ft[15 * i + 6]);
    assert(ft[15 * i + 6] == ft.subrange(15 * i, 15 * i + 15)[6]);
    assert(wm[base + 6] == wm.subrange(base, base + 15)[6]);
    lemma_ws_word(bytes, ws2.len() as int, ws2, base + 7);
    lemma_word_at(m, bytes, base + 7);
    assert(ws2[base + 7] == ft[15 * i + 7]);
    assert(ft[15 * i + 7] == ft.subrange(15 * i, 15 * i + 15)[7]);
    assert(wm[base + 7] == wm.subrange(base, base + 15)[7]);
    lemma_ws_word(bytes, ws2.len() as int, ws2, base + 8);
    lemma_word_at(m, bytes, base + 8);
    assert(ws2[base + 8] == ft[15 * i + 8]);
    assert(ft[15 * i + 8] == ft.subrange(15 * i, 15 * i + 15)[8]);
    assert(wm[base + 8] == wm.subrange(base, base + 15)[8]);
    lemma_ws_word(bytes, ws2.len() as int, ws2, base + 9);
    lemma_word_at(m, bytes, base + 9);
    assert(ws2[base + 9] == ft[15 * i + 9]);
    assert(ft[15 * i + 9] == ft.subrange(15 * i, 15 * i + 15)[9]);
    assert(wm[base + 9] == wm.subrange(base, base + 15)[9]);
    lemma_ws_word(bytes, ws2.len() as int, ws2, base + 10);
    lemma_word_at(m, bytes, base + 10);
    assert(ws2[base + 10] == ft[15 * i + 10]);
    assert(ft[15 * i + 10] == ft.subrange(15 * i, 15 * i + 15)[10]);
    assert(wm[base + 10] == wm.subrange(base, base + 15)[10]);
    lemma_ws_word(bytes, ws2.len() as int, ws2, base + 11);
    lemma_word_at(m, bytes, base + 11);
    assert(ws2[base + 11] == ft[15 * i + 11]);
    assert(ft[15 * i + 11] == ft.subrange(15 * i, 15 * i + 15)[11]);
    assert(wm[base + 11] == wm.subrange(base, base + 15)[11]);
    lemma_ws_word(bytes, ws2.len() as int, ws2, base + 12);
    lemma_word_at(m, bytes, base + 12);
    assert(ws2[base + 12] == ft[15 * i + 12]);
    assert(ft[15 * i + 12] == ft.subrange(15 * i, 15 * i + 15)[12]);
    assert(wm[base + 12] == wm.subrange(base, base + 15)[12]);
    lemma_ws_word(bytes, ws2.len() as int, ws2, base + 13);
    lemma_word_at(m, bytes, base + 13);
    assert(ws2[base + 13] == ft[15 * i + 13]);
    assert(ft[15 * i + 13] == ft.subrange(15 * i, 15 * i + 15)[13]);
    assert(wm[base + 13] == wm.subrange(base, base + 15)[13]);
    lemma_ws_word(bytes, ws2.len() as int, ws2, base + 14);
    lemma_word_at(m, bytes, base + 14);
    assert(ws2[base + 14] == ft[15 * i + 14]);
    assert(ft[15 * i + 14] == ft.subrange(15 * i, 15 * i + 15)[14]);
    assert(wm[base + 14] == wm.subrange(base, base + 15)[14]);
}

#[verifier::spinoff_prover]
proof fn lemma_stage_terms(
    bytes: Seq<u8>,
    m: DbModel,
    ws_in: Seq<u32>,
    tv: Seq<TermRaw>,
    ws2: Seq<u32>,
)
    requires
        good(bytes, m),
        ws_in.len() == p_terms_c(m),
        tv.len() <= u32::MAX,
        ws2 == ws_in + seq![tv.len() as u32] + flat_records(tv, term_f()),
        cursor_ok(bytes, ws_in.len() as int + 1 + 15 * (tv.len() as int), ws2),
    ensures
        tv == m.terms,
        ws2.len() == p_kanji_c(m),
{
    lemma_words_counts(m);
    lemma_good_len(bytes, m);
    lemma_flat_len(tv, term_f(), 15);
    lemma_word_at(m, bytes, p_terms_c(m));
    lemma_ws_word(bytes, ws2.len() as int, ws2, p_terms_c(m));
    assert(ws2[p_terms_c(m)] == tv.len() as u32);
    assert(tv.len() == m.terms.len());
    assert forall|i: int| 0 <= i < tv.len() implies tv[i] == m.terms[i] by {
        lemma_term_rec_eq(bytes, m, ws_in, tv, ws2, i);
    }
    assert(tv =~= m.terms);
}

#[verifier::rlimit(100)]
#[verifier::spinoff_prover]
proof fn lemma_kanji_rec_eq(
    bytes: Seq<u8>,
    m: DbModel,
    ws_in: Seq<u32>,
    tv: Seq<KanjiRaw>,
    ws2: Seq<u32>,
    i: int,
)
    requires
        good(bytes, m),
        ws_in.len() == p_kanji_c(m),
        tv.len() == m.kanji.len(),
        ws2 == ws_in + seq![tv.len() as u32] + flat_records(tv, kanji_f()),
        cursor_ok(bytes, ws_in.len() as int + 1 + 13 * (tv.len() as int), ws2),
        0 <= i < tv.len(),
    ensures
        tv[i] == m.kanji[i],
{
    lemma_words_counts(m);
    lemma_good_len(bytes, m);
    lemma_flat_len(tv, kanji_f(), 13);
    lemma_words_kanji_at(m, i);
    lemma_flat_index(tv, kanji_f(), 13, i);
    let base = p_kanji_c(m) + 1 + 13 * i;
    let ft = flat_records(tv, kanji_f());
    let wm = words(m);
    assert(ft.subrange(13 * i, 13 * i + 13) == kanji_u32s(tv[i]));
    assert(wm.subrange(base, base + 13) == kanji_u32s(m.kanji[i]));
    lemma_ws_word(bytes, ws2.len() as int, ws2, base);
    lemma_word_at(m, bytes, base);
    assert(ws2[base] == ft[13 * i]);
    assert(ft[13 * i] == ft.subrange(13 * i, 13 * i + 13)[0]);
    assert(wm[base] == wm.subrange(base, base + 13)[0]);
    lemma_ws_word(bytes, ws2.len() as int, ws2, base + 1);
    lemma_word_at(m, bytes, base + 1);
    assert(ws2[base + 1] == ft[13 * i + 1]);
    assert(ft[13 * i + 1] == ft.subrange(13 * i, 13 * i + 13)[1]);
    assert(wm[base + 1] == wm.subrange(base, base + 13)[1]);
    lemma_ws_word(bytes, ws2.len() as int, ws2, base + 2);
    lemma_word_at(m, bytes, base + 2);
    assert(ws2[base + 2] == ft[13 * i + 2]);
    assert(ft[13 * i + 2] == ft.subrange(13 * i, 13 * i + 13)[2]);
    assert(wm[base + 2] == wm.subrange(base, base + 13)[2]);
    lemma_ws_word(bytes, ws2.len() as int, ws2, base + 3);
    lemma_word_at(m, bytes, base + 3);
    assert(ws2[base + 3] == ft[13 * i + 3]);
    assert(ft[13 * i + 3] == ft.subrange(13 * i, 13 * i + 13)[3]);
    assert(wm[base + 3] == wm.subrange(base, base + 13)[3]);
    lemma_ws_word(bytes, ws2.len() as int, ws2, base + 4);
    lemma_word_at(m, bytes, base + 4);
    assert(ws2[base + 4] == ft[13 * i + 4]);
    assert(ft[13 * i + 4] == ft.subrange(13 * i, 13 * i + 13)[4]);
    assert(wm[base + 4] == wm.subrange(base, base + 13)[4]);
    lemma_ws_word(bytes, ws2.len() as int, ws2, base + 5);
    lemma_word_at(m, bytes, base + 5);
    assert(ws2[base + 5] == ft[13 * i + 5]);
    assert(ft[13 * i + 5] == ft.subrange(13 * i, 13 * i + 13)[5]);
    assert(wm[base + 5] == wm.subrange(base, base + 13)[5]);
    lemma_ws_word(bytes, ws2.len() as int, ws2, base + 6);
    lemma_word_at(m, bytes, base + 6);
    assert(ws2[base + 6] == ft[13 * i + 6]);
    assert(ft[13 * i + 6] == ft.subrange(13 * i, 13 * i + 13)[6]);
    assert(wm[base + 6] == wm.subrange(base, base + 13)[6]);
    lemma_ws_word(bytes, ws2.len() as int, ws2, base + 7);
    lemma_word_at(m, bytes, base + 7);
    assert(ws2[base + 7] == ft[13 * i + 7]);
    assert(ft[13 * i + 7] == ft.subrange(13 * i, 13 * i + 13)[7]);
    assert(wm[base + 7] == wm.subrange(base, base + 13)[7]);
    lemma_ws_word(bytes, ws2.len() as int, ws2, base + 8);
    lemma_word_at(m, bytes, base + 8);
    assert(ws2[base + 8] == ft[13 * i + 8]);
    assert(ft[13 * i + 8] == ft.subrange(13 * i, 13 * i + 13)[8]);
    assert(wm[base + 8] == wm.subrange(base, base + 13)[8]);
    lemma_ws_word(bytes, ws2.len() as int, ws2, base + 9);
    lemma_word_at(m, bytes, base + 9);
    assert(ws2[base + 9] == ft[13 * i + 9]);
    assert(ft[13 * i + 9] == ft.subrange(13 * i, 13 * i + 13)[9]);
    assert(wm[base + 9] == wm.subrange(base, base + 13)[9]);
    lemma_ws_word(bytes, ws2.len() as int, ws2, base + 10);
    lemma_word_at(m, bytes, base + 10);
    assert(ws2[base + 10] == ft[13 * i + 10]);
    assert(ft[13 * i + 10] == ft.subrange(13 * i, 13 * i + 13)[10]);
    assert(wm[base + 10] == wm.subrange(base, base + 13)[10]);
    lemma_ws_word(bytes, ws2.len() as int, ws2, base + 11);
    lemma_word_at(m, bytes, base + 11);
    assert(ws2[base + 11] == ft[13 * i + 11]);
    assert(ft[13 * i + 11] == ft.subrange(13 * i, 13 * i + 13)[11]);
    assert(wm[base + 11] == wm.subrange(base, base + 13)[11]);
    lemma_ws_word(bytes, ws2.len() as int, ws2, base + 12);
    lemma_word_at(m, bytes, base + 12);
    assert(ws2[base + 12] == ft[13 * i + 12]);
    assert(ft[13 * i + 12] == ft.subrange(13 * i, 13 * i + 13)[12]);
    assert(wm[base + 12] == wm.subrange(base, base + 13)[12]);
}

#[verifier::spinoff_prover]
proof fn lemma_stage_kanji(
    bytes: Seq<u8>,
    m: DbModel,
    ws_in: Seq<u32>,
    tv: Seq<KanjiRaw>,
    ws2: Seq<u32>,
)
    requires
        good(bytes, m),
        ws_in.len() == p_kanji_c(m),
        tv.len() <= u32::MAX,
        ws2 == ws_in + seq![tv.len() as u32] + flat_records(tv, kanji_f()),
        cursor_ok(bytes, ws_in.len() as int + 1 + 13 * (tv.len() as int), ws2),
    ensures
        tv == m.kanji,
        ws2.len() == p_pre_c(m),
{
    lemma_words_counts(m);
    lemma_good_len(bytes, m);
    lemma_flat_len(tv, kanji_f(), 13);
    lemma_word_at(m, bytes, p_kanji_c(m));
    lemma_ws_word(bytes, ws2.len() as int, ws2, p_kanji_c(m));
    assert(ws2[p_kanji_c(m)] == tv.len() as u32);
    assert(tv.len() == m.kanji.len());
    assert forall|i: int| 0 <= i < tv.len() implies tv[i] == m.kanji[i] by {
        lemma_kanji_rec_eq(bytes, m, ws_in, tv, ws2, i);
    }
    assert(tv =~= m.kanji);
}

#[verifier::rlimit(100)]
#[verifier::spinoff_prover]
proof fn lemma_stage_rows(
    bytes: Seq<u8>,
    m: DbModel,
    suffix: bool,
    ws_in: Seq<u32>,
    tv: Seq<TermIndex>,
    ws2: Seq<u32>,
)
    requires
        good(bytes, m),
        !suffix ==> ws_in.len() == p_pre_c(m),
        suffix ==> ws_in.len() == p_suf_c(m),
        tv.len() <= u32::MAX,
        ws2 == ws_in + seq![tv.len() as u32] + flat_records(tv, row_f()),
        cursor_ok(bytes, ws_in.len() as int + 1 + 2 * (tv.len() as int), ws2),
    ensures
        !suffix ==> tv == m.index_prefix_jp && ws2.len() == p_suf_c(m),
        suffix ==> tv == m.index_suffix_jp && ws2.len() == p_chr_c(m),
{
    lemma_words_counts(m);
    lemma_good_len(bytes, m);
    lemma_flat_len(tv, row_f(), 2);
    let ghost pc = if suffix {
        p_suf_c(m)
    } else {
        p_pre_c(m)
    };
    let ghost target = if suffix {
        m.index_suffix_jp
    } else {
        m.index_prefix_jp
    };
    lemma_word_at(m, bytes, pc);
    lemma_ws_word(bytes, ws2.len() as int, ws2, pc);
    assert(ws2[pc] == tv.len() as u32);
    assert(tv.len() == target.len());
    assert forall|i: int| 0 <= i < tv.len() implies tv[i] == target[i] by {
        if suffix {
            lemma_words_suffix_at(m, i);
        } else {
            lemma_words_prefix_at(m, i);
        }
        lemma_flat_index(tv, row_f(), 2, i);
        let base = pc + 1 + 2 * i;
        let ft = flat_records(tv, row_f());
        let wm = words(m);
        lemma_ws_word(bytes, ws2.len() as int, ws2, base);
        lemma_ws_word(bytes, ws2.len() as int, ws2, base + 1);
        lemma_word_at(m, bytes, base);
        lemma_word_at(m, bytes, base + 1);
        assert(ws2[base] == ft[2 * i] && ws2[base + 1] == ft[2 * i + 1]);
        assert(ft.subrange(2 * i, 2 * i + 2) == row_u32s(tv[i]));
        assert(ft[2 * i] == row_u32s(tv[i])[0] && ft[2 * i + 1] == row_u32s(tv[i])[1]);
        assert(wm.subrange(base, base + 2) == row_u32s(target[i]));
        assert(wm[base] == row_u32s(target[i])[0] && wm[base + 1] == row_u32s(target[i])[1]);
    }
    assert(tv =~= target);
}

#[verifier::spinoff_prover]
proof fn lemma_stage_chars(
    bytes: Seq<u8>,
    m: DbModel,
    ws_in: Seq<u32>,
    tv: Seq<CharIndex>,
    ws2: Seq<u32>,
)
    requires
        good(bytes, m),
        ws_in.len() == p_chr_c(m),
        tv.len() <= u32::MAX,
        ws2 == ws_in + seq![tv.len() as u32] + flat_records(tv, char_f()),
        cursor_ok(bytes, ws_in.len() as int + 1 + 3 * (tv.len() as int), ws2),
    ensures
        tv == m.index_chars_jp,
        ws2.len() == p_vec_c(m),
{
    lemma_words_counts(m);
    lemma_good_len(bytes, m);
    lemma_flat_len(tv, char_f(), 3);
    lemma_word_at(m, bytes, p_chr_c(m));
    lemma_ws_word(bytes, ws2.len() as int, ws2, p_chr_c(m));
    assert(ws2[p_chr_c(m)] == tv.len() as u32);
    assert(tv.len() == m.index_chars_jp.len());
    assert forall|i: int| 0 <= i < tv.len() implies tv[i] == m.index_chars_jp[i] by {
        lemma_words_char_at(m, i);
        lemma_flat_index(tv, char_f(), 3, i);
        let base = p_chr_c(m) + 1 + 3 * i;
        let ft = flat_records(tv, char_f());
        let wm = words(m);
        lemma_ws_word(bytes, ws2.len() as int, ws2, base);
        lemma_ws_word(bytes, ws2.len() as int, ws2, base + 1);
        lemma_ws_word(bytes, ws2.len() as int, ws2, base + 2);
        lemma_word_at(m, bytes, base);
        lemma_word_at(m, bytes, base + 1);
        lemma_word_at(m, bytes, base + 2);
        assert(ws2[base] == ft[3 * i] && ws2[base + 1] == ft[3 * i + 1] && ws2[base + 2] == ft[3
            * i + 2]);
        assert(ft.subrange(3 * i, 3 * i + 3) == char_u32s(tv[i]));
        assert(ft[3 * i] == char_u32s(tv[i])[0] && ft[3 * i + 1] == char_u32s(tv[i])[1] && ft[3
            * i + 2] == char_u32s(tv[i])[2]);
        assert(wm.subrange(base, base + 3) == char_u32s(m.index_chars_jp[i]));
        assert(wm[base] == char_u32s(m.index_chars_jp[i])[0] && wm[base + 1] == char_u32s(
            m.index_chars_jp[i],
        )[1] && wm[base + 2] == char_u32s(m.index_chars_jp[i])[2]);
    }
    assert(tv =~= m.index_chars_jp);
}

#[verifier::spinoff_prover]
proof fn lemma_stage_vector(
    bytes: Seq<u8>,
    m: DbModel,
    ws_in: Seq<u32>,
    tv: Seq<u32>,
    ws2: Seq<u32>,
)
    requires
        good(bytes, m),
        ws_in.len() == p_vec_c(m),
        tv.len() <= u32::MAX,
        ws2 == ws_in + seq![tv.len() as u32] + flat_records(tv, u32_f()),
        cursor_ok(bytes, ws_in.len() as int + 1 + tv.len() as int, ws2),
    ensures
        tv == m.vector_data,
        ws2.len() == p_strl_c(m),
{
    lemma_words_counts(m);
    lemma_good_len(bytes, m);
    lemma_flat_len(tv, u32_f(), 1);
    lemma_word_at(m, bytes, p_vec_c(m));
    lemma_ws_word(bytes, ws2.len() as int, ws2, p_vec_c(m));
    assert(ws2[p_vec_c(m)] == tv.len() as u32);
    assert(tv.len() == m.vector_data.len());
    assert forall|i: int| 0 <= i < tv.len() implies tv[i] == m.vector_data[i] by {
        lemma_words_vector_at(m, i);
        lemma_flat_index(tv, u32_f(), 1, i);
        let base = p_vec_c(m) + 1 + i;
        let ft = flat_records(tv, u32_f());
        lemma_ws_word(bytes, ws2.len() as int, ws2, base);
        lemma_word_at(m, bytes, base);
        assert(ws2[base] == ft[i]);
        assert(ft.subrange(i, i + 1) == u32_u32s(tv[i]));
        assert(ft[i] == u32_u32s(tv[i])[0]);
        assert(words(m)[base] == m.vector_data[i]);
    }
    assert(tv =~= m.vector_data);
}

#[verifier::spinoff_prover]
proof fn lemma_stage_strhs(
    bytes: Seq<u8>,
    m: DbModel,
    ws_in: Seq<u32>,
    tv: Seq<StrHandle>,
    ws2: Seq<u32>,
)
    requires
        good(bytes, m),
        ws_in.len() == p_strl_c(m),
        tv.len() <= u32::MAX,
        ws2 == ws_in + seq![tv.len() as u32] + flat_records(tv, strh_f()),
        cursor_ok(bytes, ws_in.len() as int + 1 + 2 * (tv.len() as int), ws2),
    ensures
        tv == m.string_list,
        ws2.len() == p_dc(m),
{
    lemma_words_counts(m);
    lemma_good_len(bytes, m);
    lemma_flat_len(tv, strh_f(), 2);
    lemma_word_at(m, bytes, p_strl_c(m));
    lemma_ws_word(bytes, ws2.len() as int, ws2, p_strl_c(m));
    assert(ws2[p_strl_c(m)] == tv.len() as u32);
    assert(tv.len() == m.string_list.len());
    assert forall|i: int| 0 <= i < tv.len() implies tv[i] == m.string_list[i] by {
        lemma_words_strh_at(m, i);
        lemma_flat_index(tv, strh_f(), 2, i);
        let base = p_strl_c(m) + 1 + 2 * i;
        let ft = flat_records(tv, strh_f());
        let wm = words(m);
        lemma_ws_word(bytes, ws2.len() as int, ws2, base);
        lemma_ws_word(bytes, ws2.len() as int, ws2, base + 1);
        lemma_word_at(m, bytes, base);
        lemma_word_at(m, bytes, base + 1);
        assert(ws2[base] == ft[2 * i] && ws2[base + 1] == ft[2 * i + 1]);
        assert(ft.subrange(2 * i, 2 * i + 2) == strh_u32s(tv[i]));
        assert(ft[2 * i] == strh_u32s(tv[i])[0] && ft[2 * i + 1] == strh_u32s(tv[i])[1]);
        assert(wm.subrange(base, base + 2) == strh_u32s(m.string_list[i]));
        assert(wm[base] == strh_u32s(m.string_list[i])[0] && wm[base + 1] == strh_u32s(
            m.string_list[i],
        )[1]);
    }
    assert(tv =~= m.string_list);
}

/// Parses a blob into a database.
///
/// On success the returned database encodes back to exactly the input
/// bytes; and whenever the input is the encoding of some model at all, the
/// parse succeeds and returns precisely that model.
#[verifier::loop_isolation(false)]
#[verifier::rlimit(100)]
#[verifier::spinoff_prover]
pub(crate) fn parse_db(bytes: &Vec<u8>) -> (r: Result<DB, DbError>)
    ensures
        r matches Ok(d) ==> bytes@ == encode_model(d@) && d@.fits(),
        forall|m: DbModel| #[trigger] good(bytes@, m) ==> (r matches Ok(d) && d@ == m),
        r matches Err(e) ==> e is MalformedBlob,
{
    let len = bytes.len();
    proof {
        assert(bytes@.subrange(0, 0) =~= enc_u32_seq(Seq::<u32>::empty()));
    }

    let tags;
    let w1;
    let ws1;
    match parse_tags(bytes, 0, Ghost(Seq::empty())) {
        Ok((tv, w, ws)) => {
            tags = tv;
            w1 = w;
            ws1 = ws;
        },
        Err(e) => {
            proof {
                assert forall|m: DbModel| !good(bytes@, m) by {
                    if good(bytes@, m) {
                        lemma_words_counts(m);
                        lemma_good_len(bytes@, m);
                        lemma_no_underrun(bytes@, m, 0, 4, m.tags.len() as int, p_terms_c(m));
                    }
                }
            }
            return Err(e);
        },
    }
    proof {
        assert forall|m: DbModel| #[trigger] good(bytes@, m) implies tags@ == m.tags && w1
            == p_terms_c(m) by {
            lemma_stage_tags(bytes@, m, Seq::empty(), tags@, ws1@);
        }
    }

    let terms;
    let w2;
    let ws2;
    match parse_terms(bytes, w1, ws1) {
        Ok((tv, w, ws)) => {
            terms = tv;
            w2 = w;
            ws2 = ws;
        },
        Err(e) => {
            proof {
                assert forall|m: DbModel| !good(bytes@, m) by {
                    if good(bytes@, m) {
                        lemma_words_counts(m);
                        lemma_good_len(bytes@, m);
                        lemma_no_underrun(
                            bytes@,
                            m,
                            p_terms_c(m),
                            15,
                            m.terms.len() as int,
                            p_kanji_c(m),
                        );
                    }
                }
            }
            return Err(e);
        },
    }
    proof {
        assert forall|m: DbModel| #[trigger] good(bytes@, m) implies terms@ == m.terms && w2
            == p_kanji_c(m) by {
            lemma_stage_terms(bytes@, m, ws1@, terms@, ws2@);
        }
    }

    let kanji;
    let w3;
    let ws3;
    match parse_kanji(bytes, w2, ws2) {
        Ok((tv, w, ws)) => {
            kanji = tv;
            w3 = w;
            ws3 = ws;
        },
        Err(e) => {
            proof {
                assert forall|m: DbModel| !good(bytes@, m) by {
                    if good(bytes@, m) {
                        lemma_words_counts(m);
                        lemma_good_len(bytes@, m);
                        lemma_no_underrun(
                            bytes@,
                            m,
                            p_kanji_c(m),
                            13,
                            m.kanji.len() as int,
                            p_pre_c(m),
                        );
                    }
                }
            }
            return Err(e);
        },
    }
    proof {
        assert forall|m: DbModel| #[trigger] good(bytes@, m) implies kanji@ == m.kanji && w3
            == p_pre_c(m) by {
            lemma_stage_kanji(bytes@, m, ws2@, kanji@, ws3@);
        }
    }

    let pre;
    let w4;
    let ws4;
    match parse_rows(bytes, w3, Section::IndexPrefix, ws3) {
        Ok((tv, w, ws)) => {
            pre = tv;
            w4 = w;
            ws4 = ws;
        },
        Err(e) => {
            proof {
                assert forall|m: DbModel| !good(bytes@, m) by {
                    if good(bytes@, m) {
                        lemma_words_counts(m);
                        lemma_good_len(bytes@, m);
                        lemma_no_underrun(
                            bytes@,
                            m,
                            p_pre_c(m),
                            2,
                            m.index_prefix_jp.len() as int,
                            p_suf_c(m),
                        );
                    }
                }
            }
            return Err(e);
        },
    }
    proof {
        assert forall|m: DbModel| #[trigger] good(bytes@, m) implies pre@ == m.index_prefix_jp
            && w4 == p_suf_c(m) by {
            lemma_stage_rows(bytes@, m, false, ws3@, pre@, ws4@);
        }
    }

    let suf;
    let w5;
    let ws5;
    match parse_rows(bytes, w4, Section::IndexSuffix, ws4) {
        Ok((tv, w, ws)) => {
            suf = tv;
            w5 = w;
            ws5 = ws;
        },
        Err(e) => {
            proof {
                assert forall|m: DbModel| !good(bytes@, m) by {
                    if good(bytes@, m) {
                        lemma_words_counts(m);
                        lemma_good_len(bytes@, m);
                        lemma_no_underrun(
                            bytes@,
                            m,
                            p_suf_c(m),
                            2,
                            m.index_suffix_jp.len() as int,
                            p_chr_c(m),
                        );
                    }
                }
            }
            return Err(e);
        },
    }
    proof {
        assert forall|m: DbModel| #[trigger] good(bytes@, m) implies suf@ == m.index_suffix_jp
            && w5 == p_chr_c(m) by {
            lemma_stage_rows(bytes@, m, true, ws4@, suf@, ws5@);
        }
    }

    let chars;
    let w6;
    let ws6;
    match parse_chars(bytes, w5, ws5) {
        Ok((tv, w, ws)) => {
            chars = tv;
            w6 = w;
            ws6 = ws;
        },
        Err(e) => {
            proof {
                assert forall|m: DbModel| !good(bytes@, m) by {
                    if good(bytes@, m) {
                        lemma_words_counts(m);
                        lemma_good_len(bytes@, m);
                        lemma_no_underrun(
                            bytes@,
                            m,
                            p_chr_c(m),
                            3,
                            m.index_chars_jp.len() as int,
                            p_vec_c(m),
                        );
                    }
                }
            }
            return Err(e);
        },
    }
    proof {
        assert forall|m: DbModel| #[trigger] good(bytes@, m) implies chars@ == m.index_chars_jp
            && w6 == p_vec_c(m) by {
            lemma_stage_chars(bytes@, m, ws5@, chars@, ws6@);
        }
    }

    let vector;
    let w7;
    let ws7;
    match parse_vector(bytes, w6, ws6) {
        Ok((tv, w, ws)) => {
            vector = tv;
            w7 = w;
            ws7 = ws;
        },
        Err(e) => {
            proof {
                assert forall|m: DbModel| !good(bytes@, m) by {
                    if good(bytes@, m) {
                        lemma_words_counts(m);
                        lemma_good_len(bytes@, m);
                        lemma_no_underrun(
                            bytes@,
                            m,
                            p_vec_c(m),
                            1,
                            m.vector_data.len() as int,
                            p_strl_c(m),
                        );
                    }
                }
            }
            return Err(e);
        },
    }
    proof {
        assert forall|m: DbModel| #[trigger] good(bytes@, m) implies vector@ == m.vector_data
            && w7 == p_strl_c(m) by {
            lemma_stage_vector(bytes@, m, ws6@, vector@, ws7@);
        }
    }

    let strl;
    let w8;
    let ws8;
    match parse_strhs(bytes, w7, ws7) {
        Ok((tv, w, ws)) => {
            strl = tv;
            w8 = w;
            ws8 = ws;
        },
        Err(e) => {
            proof {
                assert forall|m: DbModel| !good(bytes@, m) by {
                    if good(bytes@, m) {
                        lemma_words_counts(m);
                        lemma_good_len(bytes@, m);
                        lemma_no_underrun(
                            bytes@,
                            m,
                            p_strl_c(m),
                            2,
                            m.string_list.len() as int,
                            p_dc(m),
                        );
                    }
                }
            }
            return Err(e);
        },
    }
    proof {
        assert forall|m: DbModel| #[trigger] good(bytes@, m) implies strl@ == m.string_list && w8
            == p_dc(m) by {
            lemma_stage_strhs(bytes@, m, ws7@, strl@, ws8@);
        }
    }

    if len - 4 * w8 < 4 {
        proof {
            assert forall|m: DbModel| !good(bytes@, m) by {
                if good(bytes@, m) {
                    lemma_words_counts(m);
                    lemma_good_len(bytes@, m);
                    lemma_word_at(m, bytes@, p_dc(m));
                }
            }
        }
        return Err(DbError::MalformedBlob { section: Section::StringData, row: 0 });
    }
    let dc = read_word(bytes, w8);
    let w9 = w8 + 1;
    let ghost ws9 = ws8@.push(dc);
    proof {
        lemma_extend_ws(bytes@, ws8@, dc);
    }
    let data_off = 4 * w9;
    let remaining = len - data_off;
    if remaining != dc as usize {
        proof {
            assert forall|m: DbModel| !good(bytes@, m) by {
                if good(bytes@, m) {
                    lemma_words_counts(m);
                    lemma_good_len(bytes@, m);
                    lemma_word_at(m, bytes@, p_dc(m));
                    lemma_ws_word(bytes@, w9 as int, ws9, p_dc(m));
                    assert(dc == m.string_data.len() as u32);
                }
            }
        }
        return Err(DbError::MalformedBlob { section: Section::StringData, row: 0 });
    }
    let mut data: Vec<u8> = Vec::new();
    let mut i: usize = 0;
    proof {
        assert(data@ =~= bytes@.subrange(data_off as int, data_off as int));
    }
    while i < remaining
        invariant
            0 <= i <= remaining,
            data@ == bytes@.subrange(data_off as int, data_off + i),
        decreases remaining - i,
    {
        data.push(bytes[data_off + i]);
        proof {
            assert(data@ =~= bytes@.subrange(data_off as int, data_off + i + 1));
        }
        i = i + 1;
    }
    let d = DB::assemble(tags, terms, kanji, pre, suf, chars, vector, strl, data);
    let ghost md = d@;
    proof {
        lemma_section_lens(md);
        assert(ws9 =~= words(md));
        assert(bytes@ =~= bytes@.subrange(0, 4 * (w9 as int)) + bytes@.subrange(
            4 * (w9 as int),
            len as int,
        ));
        assert(bytes@ == encode_model(md));
        assert(md.fits());
        assert forall|m: DbModel| #[trigger] good(bytes@, m) implies md == m by {
            lemma_good_len(bytes@, m);
            lemma_enc_len(words(m));
            assert(words(m).len() == w9);
            assert(m.string_data =~= bytes@.subrange(4 * (w9 as int), len as int));
            assert(md =~= m);
        }
    }
    Ok(d)
}

} // verus!
