use jdict::DbError;
use jdict::KanjiData;
use jdict::ResultSet;
use jdict::Section;
use jdict::TagData;
use jdict::TermData;
use jdict::Writer;
use jdict::DB;

fn bv(s: &str) -> Vec<u8> {
    s.as_bytes().to_vec()
}

fn term_data(expression: u32, reading: u32, search_key: u32, frequency: u32) -> TermData {
    TermData {
        expression,
        reading,
        search_key,
        score: 0,
        sequence: 0,
        frequency,
        source: 0,
        glossary: Vec::new(),
        rules: Vec::new(),
        term_tags: Vec::new(),
        definition_tags: Vec::new(),
    }
}

fn collect(set: &ResultSet) -> Vec<usize> {
    let mut out = Vec::new();
    let mut it = set.iter();
    while let Some(v) = it.next() {
        out.push(v);
    }
    out
}

#[test]
fn intern_empty_is_zero_and_idempotent() {
    let mut w = Writer::new();
    assert_eq!(w.intern(bv("")), 0);
    assert_eq!(w.intern(bv("x")), 1);
    assert_eq!(w.intern(bv("x")), 1);
    assert_eq!(w.intern(bv("")), 0);
}

#[test]
fn unknown_tag_is_reported() {
    let mut w = Writer::new();
    let name = w.intern(bv("n"));
    w.push_tag(TagData { name, category: 0, order: 1, notes: 0 });
    assert!(w.get_tag(&bv("n")).is_ok());
    assert_eq!(w.get_tag(&bv("missing")), Err(DbError::UnknownTag));
}

#[test]
fn single_term_round_trip() {
    let mut w = Writer::new();
    let t_name = w.intern(bv("n"));
    let t_cat = w.intern(bv("noun"));
    let t_notes = w.intern(bv("普通"));
    w.push_tag(TagData { name: t_name, category: t_cat, order: 1, notes: t_notes });
    let tag = w.get_tag(&bv("n")).unwrap();
    let expr = w.intern(bv("犬"));
    let read = w.intern(bv("いぬ"));
    let gloss = w.intern(bv("dog"));
    let mut data = term_data(expr, read, 0, 100);
    data.sequence = 1;
    data.glossary = vec![gloss];
    data.term_tags = vec![tag];
    w.push_term(data);
    let blob = w.write().unwrap();

    let db = DB::load(&blob).unwrap();
    assert!(db.check().is_ok());
    assert_eq!(db.terms_len(), 1);
    assert_eq!(db.tags_len(), 1);

    let mut out = ResultSet::new();
    assert_eq!(db.search_term(&bv("犬"), &mut out), 1);
    assert_eq!(collect(&out), vec![0]);
    let mut out = ResultSet::new();
    assert_eq!(db.search_term(&bv("いぬ"), &mut out), 1);
    assert_eq!(collect(&out), vec![0]);
    let mut out = ResultSet::new();
    assert_eq!(db.search_term(&bv("dog"), &mut out), 0);
    assert_eq!(collect(&out), Vec::<usize>::new());
    let mut out = ResultSet::new();
    assert_eq!(db.search_prefix(&bv("い"), &mut out), 1);
    assert_eq!(collect(&out), vec![0]);

    let term = db.term(0).unwrap();
    assert_eq!(term.expression(), bv("犬"));
    assert_eq!(term.reading(), bv("いぬ"));
    assert_eq!(term.frequency(), Some(100));
    assert_eq!(term.sequence(), 1);
    let glossary = term.glossary();
    assert_eq!(glossary.len(), 1);
    assert_eq!(glossary[0], bv("dog"));
    let tags = term.term_tags();
    assert_eq!(tags.len(), 1);
    assert_eq!(tags[0].name(), bv("n"));
    assert_eq!(tags[0].category(), bv("noun"));
    assert_eq!(tags[0].order(), 1);
    assert_eq!(tags[0].notes(), bv("普通"));
    assert_eq!(term.rules().len(), 0);
    assert_eq!(term.definition_tags().len(), 0);
}

#[test]
fn relevance_sort_and_suffix_search() {
    let mut w = Writer::new();
    let a = w.intern(bv("食べる"));
    let b = w.intern(bv("食う"));
    w.push_term(term_data(a, 0, 0, 10));
    w.push_term(term_data(b, 0, 0, 50));
    let blob = w.write().unwrap();
    let db = DB::load(&blob).unwrap();
    assert!(db.check().is_ok());

    let term0 = db.term(0).unwrap();
    assert_eq!(term0.expression(), bv("食う"));
    let term1 = db.term(1).unwrap();
    assert_eq!(term1.expression(), bv("食べる"));

    let mut out = ResultSet::new();
    assert_eq!(db.search_prefix(&bv("食"), &mut out), 2);
    assert_eq!(collect(&out), vec![0, 1]);

    let mut out = ResultSet::new();
    assert_eq!(db.search_suffix(&bv("る"), &mut out), 1);
    assert_eq!(collect(&out), vec![1]);
}

#[test]
fn readings_share_prefix_and_suffix() {
    let mut w = Writer::new();
    let e1 = w.intern(bv("日本語"));
    let r1 = w.intern(bv("にほんご"));
    let e2 = w.intern(bv("日本"));
    let r2 = w.intern(bv("にほん"));
    w.push_term(term_data(e1, r1, 0, 1));
    w.push_term(term_data(e2, r2, 0, 1));
    let blob = w.write().unwrap();
    let db = DB::load(&blob).unwrap();
    assert!(db.check().is_ok());

    let mut out = ResultSet::new();
    assert_eq!(db.search_prefix(&bv("日本"), &mut out), 2);
    assert_eq!(collect(&out), vec![0, 1]);

    // Equal frequency: the tie keeps push order, so 日本語 stays term 0.
    assert_eq!(db.term(0).unwrap().expression(), bv("日本語"));
    assert_eq!(db.term(1).unwrap().expression(), bv("日本"));

    // にほんご ends in ご, にほん ends in ん: only the latter matches.
    let mut out = ResultSet::new();
    db.search_suffix(&bv("ん"), &mut out);
    let hits = collect(&out);
    let mut readings: Vec<Vec<u8>> = Vec::new();
    for h in hits {
        readings.push(db.term(h).unwrap().reading());
    }
    assert_eq!(readings, vec![bv("にほん")]);

    // 日本語 ends in 語.
    let mut out = ResultSet::new();
    db.search_suffix(&bv("語"), &mut out);
    let hits = collect(&out);
    assert_eq!(hits.len(), 1);
    assert_eq!(db.term(hits[0]).unwrap().expression(), bv("日本語"));
}

#[test]
fn empty_keys_and_empty_lists() {
    let mut w = Writer::new();
    let expr = w.intern(bv("犬"));
    w.push_term(term_data(expr, 0, 0, 1));
    let blob = w.write().unwrap();
    let db = DB::load(&blob).unwrap();
    assert!(db.check().is_ok());

    // The empty key matches nothing and changes nothing.
    let mut out = ResultSet::new();
    assert_eq!(db.search_term(&bv(""), &mut out), 0);
    assert_eq!(db.search_prefix(&bv(""), &mut out), 0);
    assert_eq!(db.search_suffix(&bv(""), &mut out), 0);
    assert_eq!(out.len(), 0);

    // Empty lists decode as empty.
    let term = db.term(0).unwrap();
    assert_eq!(term.glossary().len(), 0);
    assert_eq!(term.rules().len(), 0);
    assert_eq!(term.reading(), bv(""));
    assert_eq!(term.search_key(), bv(""));
}

#[test]
fn repeated_searches_do_not_duplicate() {
    let mut w = Writer::new();
    let expr = w.intern(bv("犬"));
    let read = w.intern(bv("いぬ"));
    w.push_term(term_data(expr, read, 0, 1));
    let blob = w.write().unwrap();
    let db = DB::load(&blob).unwrap();

    let mut out = ResultSet::new();
    assert_eq!(db.search_term(&bv("犬"), &mut out), 1);
    assert_eq!(db.search_term(&bv("犬"), &mut out), 0);
    assert_eq!(db.search_prefix(&bv("犬"), &mut out), 0);
    assert_eq!(db.search_term(&bv("いぬ"), &mut out), 0);
    assert_eq!(out.len(), 1);
    assert_eq!(collect(&out), vec![0]);
}

#[test]
fn truncated_blob_is_rejected() {
    let mut w = Writer::new();
    let expr = w.intern(bv("犬"));
    w.push_term(term_data(expr, 0, 0, 1));
    let mut blob = w.write().unwrap();
    blob.pop();
    match DB::load(&blob) {
        Err(DbError::MalformedBlob { section, .. }) => {
            assert_eq!(section, Section::StringData);
        },
        other => panic!("expected a malformed blob error, got {:?}", other.is_ok()),
    }
}

#[test]
fn kanji_round_trip() {
    let mut w = Writer::new();
    let t_name = w.intern(bv("jouyou"));
    w.push_tag(TagData { name: t_name, category: 0, order: 0, notes: 0 });
    let tag = w.get_tag(&bv("jouyou")).unwrap();
    let meaning = w.intern(bv("dog"));
    let on = w.intern(bv("ケン"));
    let kun = w.intern(bv("いぬ"));
    let stat = w.intern(bv("8"));
    w.push_kanji(KanjiData {
        character: 0x72AC,
        frequency: 7,
        source: 0,
        meanings: vec![meaning],
        onyomi: vec![on],
        kunyomi: vec![kun],
        tags: vec![tag],
        stats: vec![(tag, stat)],
    });
    let blob = w.write().unwrap();
    let db = DB::load(&blob).unwrap();
    assert!(db.check().is_ok());
    assert_eq!(db.kanji_len(), 1);
}

#[test]
fn result_set_iterates_ascending() {
    let mut w = Writer::new();
    let mut exprs = Vec::new();
    for text in ["犬小屋", "犬", "犬歯"] {
        exprs.push(w.intern(bv(text)));
    }
    w.push_term(term_data(exprs[0], 0, 0, 5));
    w.push_term(term_data(exprs[1], 0, 0, 50));
    w.push_term(term_data(exprs[2], 0, 0, 20));
    let blob = w.write().unwrap();
    let db = DB::load(&blob).unwrap();

    let mut out = ResultSet::new();
    assert_eq!(db.search_prefix(&bv("犬"), &mut out), 3);
    let hits = collect(&out);
    assert_eq!(hits, vec![0, 1, 2]);
    let mut it = out.iter();
    assert_eq!(it.size_hint(), 3);
    assert_eq!(it.next(), Some(0));
    assert_eq!(it.size_hint(), 2);
}

#[test]
fn search_key_is_indexed() {
    let mut w = Writer::new();
    let expr = w.intern(bv("ＡＢＣ"));
    let key = w.intern(bv("abc"));
    w.push_term(term_data(expr, 0, key, 1));
    let blob = w.write().unwrap();
    let db = DB::load(&blob).unwrap();
    let mut out = ResultSet::new();
    assert_eq!(db.search_term(&bv("abc"), &mut out), 1);
    assert_eq!(collect(&out), vec![0]);
}

#[test]
fn frequency_merge_updates_matching_terms() {
    let mut w = Writer::new();
    let a = w.intern(bv("食べる"));
    let b = w.intern(bv("食う"));
    w.push_term(term_data(a, 0, 0, 0));
    w.push_term(term_data(b, 0, 0, 0));
    let occurrences = vec![(bv("食べる"), 10u64), (bv("食う"), 50u64), (bv("他"), 7u64)];
    w.merge_term_frequencies(&occurrences);
    let blob = w.write().unwrap();
    let db = DB::load(&blob).unwrap();
    assert!(db.check().is_ok());
    let term0 = db.term(0).unwrap();
    assert_eq!(term0.expression(), bv("食う"));
    assert_eq!(term0.frequency(), Some(50));
    let term1 = db.term(1).unwrap();
    assert_eq!(term1.expression(), bv("食べる"));
    assert_eq!(term1.frequency(), Some(10));
}

#[test]
fn kanji_frequency_merge_updates_matching_kanji() {
    let mut w = Writer::new();
    w.push_kanji(KanjiData {
        character: 0x72AC,
        frequency: 0,
        source: 0,
        meanings: Vec::new(),
        onyomi: Vec::new(),
        kunyomi: Vec::new(),
        tags: Vec::new(),
        stats: Vec::new(),
    });
    let occurrences = vec![(0x72ACu32, 9u64)];
    w.merge_kanji_frequencies(&occurrences);
    let blob = w.write().unwrap();
    let db = DB::load(&blob).unwrap();
    assert!(db.check().is_ok());
    assert_eq!(db.kanji_len(), 1);
}

#[test]
fn capacity_error_on_sealed_overflow_is_not_reachable_by_small_inputs() {
    let mut w = Writer::new();
    let expr = w.intern(bv("山"));
    w.push_term(term_data(expr, 0, 0, 1));
    assert!(w.write().is_ok());
}
