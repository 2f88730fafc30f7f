use pin_core::analysis::{AnalysisLimits, Analyzed};
use pin_core::candidate::CandidatePlan;
use pin_core::codec::dictionary::{encode, Dictionary, DictionaryLimits, TermId};
use pin_core::codec::records::{DocumentRecord, Publication};
use pin_core::codec::ErrorKind;
use pin_core::error::Error;
use pin_core::identity::{
    Generation, HeapLayout, Incarnation, RelationGeneration, RootTid, SegmentId,
};
use pin_core::index::{Document, IndexLimits, ReferenceIndex, SearchLimits};
use pin_core::mutable::document::{PreparedDocument, MAX_TERM_BYTES};
use pin_core::oracle::matches_nullable;
use pin_core::query::{Kind, Node, Query};

fn analyzed(text: &str) -> Analyzed {
    Analyzed::analyze(text, AnalysisLimits::default()).unwrap()
}

fn query(kinds: Vec<Kind>) -> Query {
    let root = kinds.len() - 1;
    let nodes = kinds.into_iter().map(|kind| Node { kind }).collect();
    Query::new(nodes, root).unwrap()
}

fn term(text: &str) -> Kind {
    Kind::Term(text.to_string())
}

fn phrase(texts: &[&str]) -> Kind {
    Kind::Phrase(texts.iter().map(|text| text.to_string()).collect())
}

fn relation(generation: u64) -> RelationGeneration {
    RelationGeneration::new(1, 2, 3, Generation::new(generation).unwrap()).unwrap()
}

fn record(number: u32, text: &Analyzed) -> DocumentRecord {
    DocumentRecord {
        segment: SegmentId::new(1).unwrap(),
        incarnation: Incarnation::new(u64::from(number) + 1).unwrap(),
        root: RootTid::new(number, 1, HeapLayout::new(291).unwrap()).unwrap(),
        token_count: text.len(),
        profile: 1,
        publication: Publication::Published,
        live: true,
    }
}

fn queries() -> Vec<Query> {
    vec![
        query(vec![Kind::Nothing]),
        query(vec![term("fox")]),
        query(vec![term("cat")]),
        query(vec![Kind::Prefix("br".to_string())]),
        query(vec![phrase(&["quick", "brown"])]),
        query(vec![phrase(&["the", "the"])]),
        query(vec![term("fox"), Kind::Not(0)]),
        query(vec![term("fox"), term("dog"), Kind::And(0, 1)]),
        query(vec![term("cat"), term("dog"), Kind::Or(0, 1)]),
        query(vec![
            Kind::Prefix("d".to_string()),
            phrase(&["lazy", "dog"]),
            Kind::Not(1),
            Kind::And(0, 2),
        ]),
    ]
}

const TEXTS: [&str; 5] = [
    "The quick brown fox",
    "brown the quick fox and the lazy dog",
    "the the end",
    "dog days, done",
    "",
];

#[test]
fn reference_index_agrees_with_direct_evaluation() {
    let texts: Vec<Analyzed> = TEXTS.iter().map(|text| analyzed(text)).collect();
    let documents: Vec<Document<'_>> = texts
        .iter()
        .enumerate()
        .rev()
        .map(|(number, text)| {
            Document::new(relation(1), record(number as u32, text), text).unwrap()
        })
        .collect();
    let index = ReferenceIndex::build(relation(1), &documents, IndexLimits::default()).unwrap();
    assert_eq!(index.documents().len(), 5);
    assert_eq!(index.documents()[0].identity().root.block(), 0);
    assert_eq!(index.total_length(), 4 + 8 + 3 + 3);
    assert_eq!(index.document_frequency("the"), 3);
    assert_eq!(index.document_frequency("dog"), 2);
    assert_eq!(index.document_frequency("cat"), 0);
    for query in queries() {
        let expected: Vec<u32> = (0..5u32)
            .filter(|&number| {
                pin_core::oracle::matches(&texts[number as usize], &query, 1 << 20, 10_000).unwrap()
            })
            .collect();
        let mut found = Vec::new();
        let mut search = index.search(&query, SearchLimits::default()).unwrap();
        while let Some(candidate) = search.next() {
            let candidate = candidate.unwrap();
            assert_eq!(candidate.document.root.block(), candidate.ordinal);
            found.push(candidate.ordinal);
        }
        assert_eq!(found, expected);
        assert_eq!(
            index.candidate_count(&query, SearchLimits::default()).unwrap(),
            expected.len() as u64
        );
    }
}

#[test]
fn direct_evaluation_counts_its_steps() {
    let text = analyzed("a b c");
    let needle = query(vec![term("c")]);
    assert_eq!(pin_core::oracle::matches(&text, &needle, 1 << 20, 4).unwrap(), true);
    assert_eq!(
        pin_core::oracle::matches(&text, &needle, 1 << 20, 3),
        Err(Error::Limit("search work"))
    );
    assert!(matches!(
        pin_core::oracle::matches(&text, &needle, 0, 100),
        Err(Error::Budget(_))
    ));
    assert_eq!(pin_core::oracle::matches_in(&text, &needle, Vec::new(), 4), Ok(true));
    assert_eq!(
        pin_core::oracle::matches_in(&text, &needle, Vec::new(), 3),
        Err(Error::Limit("search work"))
    );
    assert_eq!(matches_nullable(None, &needle, 0, 0).unwrap(), None);
    assert_eq!(matches_nullable(Some(&text), &needle, 1 << 20, 4).unwrap(), Some(true));
}

#[test]
fn documents_and_indexes_reject_what_does_not_fit() {
    let text = analyzed("a b a");
    let fine = record(1, &text);
    let new = |record| Document::new(relation(1), record, &text).err();
    assert_eq!(new(DocumentRecord { live: false, ..fine }), Some(Error::InvalidState));
    assert_eq!(new(DocumentRecord { profile: 2, ..fine }), Some(Error::InvalidProfile));
    assert_eq!(new(DocumentRecord { token_count: 2, ..fine }), Some(Error::InvalidDocument));
    let one = Document::new(relation(1), fine, &text).unwrap();
    let limits = IndexLimits::default();
    let build = |documents: &[Document<'_>], limits| {
        ReferenceIndex::build(relation(1), documents, limits).err()
    };
    assert_eq!(build(&[one, one], limits), Some(Error::DuplicateDocument));
    assert_eq!(
        build(&[one], IndexLimits { documents: 0, ..limits }),
        Some(Error::Limit("documents"))
    );
    assert_eq!(build(&[one], IndexLimits { tokens: 2, ..limits }), Some(Error::Limit("tokens")));
    assert_eq!(
        build(&[one], IndexLimits { terms: 1, ..limits }),
        Some(Error::Limit("dictionary terms"))
    );
    assert_eq!(
        build(&[one], IndexLimits { term_bytes: 0, ..limits }),
        Some(Error::Limit("term bytes"))
    );
    assert!(matches!(
        build(&[one], IndexLimits { memory_bytes: 1, ..limits }),
        Some(Error::Budget(_))
    ));
    let foreign = Document::new(relation(2), fine, &text).unwrap();
    assert_eq!(build(&[foreign], limits), Some(Error::ForeignRelation));
    let index = ReferenceIndex::build(relation(1), &[one], limits).unwrap();
    let prefix = query(vec![Kind::Prefix(String::new())]);
    assert_eq!(
        index.search(&prefix, SearchLimits { expanded_terms: 1, ..SearchLimits::default() }).err(),
        Some(Error::Limit("prefix expansion"))
    );
    assert_eq!(
        index.search(&prefix, SearchLimits { work_steps: 0, ..SearchLimits::default() }).err(),
        Some(Error::Limit("search work"))
    );
}

#[test]
fn queries_reject_nodes_out_of_order() {
    let bad = |kinds: Vec<Kind>, root| {
        Query::new(kinds.into_iter().map(|kind| Node { kind }).collect(), root).err()
    };
    assert_eq!(bad(vec![Kind::Not(0)], 0), Some(Error::InvalidState));
    assert_eq!(bad(vec![term("a")], 1), Some(Error::InvalidState));
    assert_eq!(bad(vec![Kind::Phrase(Vec::new())], 0), Some(Error::InvalidState));
    assert!(query(vec![term("a")]).is_single_term());
}

#[test]
fn candidate_plans_cover() {
    let both = query(vec![term("a"), phrase(&["b", "c"]), Kind::And(0, 1)]);
    match CandidatePlan::build(&both, 1 << 20).unwrap() {
        CandidatePlan::Terms(terms) => assert_eq!(terms, ["a"]),
        _ => panic!("a cover of one term"),
    }
    let negated = query(vec![term("a"), Kind::Not(0)]);
    assert!(matches!(CandidatePlan::build(&negated, 1 << 20), Ok(CandidatePlan::Universe)));
    let nothing = query(vec![Kind::Nothing]);
    assert!(matches!(CandidatePlan::build(&nothing, 1 << 20), Ok(CandidatePlan::Empty)));
    assert!(matches!(CandidatePlan::build(&both, 0), Err(Error::Budget(_))));
    match CandidatePlan::build_in(&both, Vec::new(), Vec::new(), Vec::new()).unwrap() {
        CandidatePlan::Terms(terms) => assert_eq!(terms.len(), 1),
        _ => panic!(),
    }
}

#[test]
fn dictionaries_round_trip_and_search() {
    let limits = DictionaryLimits { max_bytes: 4096, max_terms: 100, max_term_bytes: 16 };
    let terms = ["a", "ab", "abc", "b", "caf\u{e9}"];
    let mut output = [0u8; 4096];
    let len = encode(1, &terms, &mut output, limits).unwrap();
    let dictionary = Dictionary::parse(&output[..len], limits).unwrap();
    assert_eq!((dictionary.profile(), dictionary.len(), dictionary.is_empty()), (1, 5, false));
    for (number, text) in terms.iter().enumerate() {
        assert_eq!(dictionary.term(TermId(number as u32)).unwrap(), *text);
        assert_eq!(dictionary.lookup(text).unwrap(), Some(TermId(number as u32)));
    }
    assert_eq!(dictionary.lookup("abd").unwrap(), None);
    assert_eq!(dictionary.prefix("ab", 10).unwrap(), 1..3);
    assert_eq!(dictionary.prefix("", 10).unwrap(), 0..5);
    assert_eq!(dictionary.prefix("z", 10).unwrap(), 5..5);
    assert_eq!(dictionary.prefix("a", 2).unwrap_err().kind, ErrorKind::LimitExceeded);
    assert_eq!(dictionary.term(TermId(5)).unwrap_err().kind, ErrorKind::InvalidValue);
    let kind = |profile, terms: &[&str], limits| {
        encode(profile, terms, &mut [0u8; 256], limits).unwrap_err().kind
    };
    assert_eq!(kind(0, &["a"], limits), ErrorKind::InvalidValue);
    assert_eq!(kind(1, &["b", "a"], limits), ErrorKind::InvalidOrder);
    assert_eq!(kind(1, &[""], limits), ErrorKind::LimitExceeded);
    assert_eq!(kind(1, &["a", "b"], DictionaryLimits { max_terms: 1, ..limits }), ErrorKind::LimitExceeded);
    assert_eq!(kind(1, &["a"], DictionaryLimits { max_bytes: 30, ..limits }), ErrorKind::LimitExceeded);
    assert_eq!(encode(1, &["a"], &mut [0u8; 8], limits).unwrap_err().kind, ErrorKind::Truncated);
    let mut broken = output[..len].to_vec();
    broken[len - 1] = 0xff;
    assert_eq!(Dictionary::parse(&broken, limits).unwrap_err().kind, ErrorKind::InvalidUtf8);
    broken.push(0);
    assert!(Dictionary::parse(&broken, limits).is_err());
}

#[test]
fn prepared_documents_hold_each_word_once() {
    let text = analyzed("b a b c a b");
    let prepared = PreparedDocument::prepare(&text, 1 << 20).unwrap();
    assert_eq!((prepared.token_count(), prepared.term_count()), (6, 3));
    let copy = PreparedDocument::copy_from_bytes(prepared.bytes(), 1 << 20).unwrap();
    let mut terms = copy.terms();
    let mut found: Vec<(String, Vec<u32>)> = Vec::new();
    while let Some(entry) = terms.next() {
        let entry = entry.unwrap();
        let mut positions = Vec::new();
        let mut iter = entry.positions().unwrap().iter();
        while let Some(position) = iter.next() {
            positions.push(position.unwrap());
        }
        found.push((entry.term.to_string(), positions));
    }
    assert_eq!(
        found,
        [
            ("a".to_string(), vec![1, 4]),
            ("b".to_string(), vec![0, 2, 5]),
            ("c".to_string(), vec![3])
        ]
    );
    assert_eq!(PreparedDocument::prepare(&analyzed(""), 1 << 20).unwrap().bytes().len(), 16);
    assert!(matches!(PreparedDocument::prepare(&text, 10), Err(Error::Budget(_))));
    let long = "x".repeat(MAX_TERM_BYTES + 1);
    let wide = AnalysisLimits { term_bytes: 4096, ..AnalysisLimits::default() };
    let document = Analyzed::analyze(&long, wide).unwrap();
    assert_eq!(
        PreparedDocument::prepare(&document, 1 << 20).err(),
        Some(Error::Limit("term bytes"))
    );
}
