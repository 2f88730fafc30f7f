use pin_core::analysis::{AnalysisLimits, Analyzed};
use pin_core::callbacks::RootList;
use pin_core::candidate::CandidatePlan;
use pin_core::codec::records::{DocumentRecord, Publication};
use pin_core::error::Error;
use pin_core::identity::{
    Generation, HeapLayout, Incarnation, RelationGeneration, RootTid, SegmentId,
};
use pin_core::index::{Document, IndexLimits, ReferenceIndex, SearchLimits};
use pin_core::mutable::compact::{compact_with_mode, recover, CompactMode};
use pin_core::mutable::document::PreparedDocument;
use pin_core::mutable::memory::MemoryStore;
use pin_core::mutable::reader::scan;
use pin_core::mutable::vacuum::vacuum;
use pin_core::mutable::writer::{initialize, insert};
use pin_core::normalize::compose_text_in;
use pin_core::query::{Kind, Node, Query};

fn layout() -> HeapLayout {
    HeapLayout::new(291).unwrap()
}

fn analyzed(text: &str) -> Analyzed {
    Analyzed::analyze(text, AnalysisLimits::default()).unwrap()
}

fn stored(text: &str) -> PreparedDocument {
    PreparedDocument::prepare(&analyzed(text), 1 << 22).unwrap()
}

fn place(number: u32) -> RootTid {
    RootTid::new(number / 100, (number % 100 + 1) as u16, layout()).unwrap()
}

fn store_of(texts: &[String]) -> MemoryStore {
    let mut store = MemoryStore::new(layout(), false, false);
    initialize(&mut store).unwrap();
    for (number, text) in texts.iter().enumerate() {
        insert(&mut store, place(number as u32), &stored(text)).unwrap();
    }
    store
}

fn scanned(store: &mut MemoryStore, plan: &CandidatePlan<'_>) -> Vec<u32> {
    let mut roots: Vec<RootTid> = Vec::new();
    let count = scan(store, plan, &mut roots).unwrap();
    assert_eq!(count, roots.len() as u64);
    roots.iter().map(|root| root.block() * 100 + u32::from(root.offset()) - 1).collect()
}

#[test]
fn scans_give_inserted_documents_last() {
    let texts: Vec<String> = (0..700).map(|i| format!("all t{} u{}", i % 3, i)).collect();
    let mut store = store_of(&texts);
    let plans = [
        CandidatePlan::Universe,
        CandidatePlan::Terms(vec!["all"]),
        CandidatePlan::Terms(vec!["t1"]),
        CandidatePlan::Terms(vec!["t2"]),
        CandidatePlan::Terms(vec!["fresh"]),
        CandidatePlan::Empty,
    ];
    let before: Vec<Vec<u32>> = plans.iter().map(|plan| scanned(&mut store, plan)).collect();
    assert_eq!(before[0], (0..700).collect::<Vec<u32>>());
    assert!(before[4].is_empty());
    insert(&mut store, place(700), &stored("all fresh t1")).unwrap();
    for (plan, (mut expected, mentioned)) in
        plans.iter().zip(before.into_iter().zip([true, true, true, false, true, false]))
    {
        if mentioned {
            expected.push(700);
        }
        assert_eq!(scanned(&mut store, plan), expected);
    }
}

#[test]
fn compaction_keeps_what_scans_give() {
    for mode in [CompactMode::Copy, CompactMode::RetainSealedPrefix, CompactMode::DirectTid] {
        let texts: Vec<String> = (0..2500).map(|i| format!("all t{} u{}", i % 3, i)).collect();
        let mut store = store_of(&texts);
        let mut filter = RootList::new((0..2500).step_by(5).map(place).collect());
        vacuum(&mut store, &mut filter).unwrap();
        let plans = [
            CandidatePlan::Universe,
            CandidatePlan::Terms(vec!["all"]),
            CandidatePlan::Terms(vec!["t0", "t2"]),
            CandidatePlan::Terms(vec!["u11"]),
        ];
        let before: Vec<Vec<u32>> = plans.iter().map(|plan| scanned(&mut store, plan)).collect();
        assert_eq!(before[1].len(), 2000);
        assert_eq!(before[3], [11]);
        let stats = compact_with_mode(&mut store, mode).unwrap();
        assert!(stats.rewritten_terms > 0);
        let after: Vec<Vec<u32>> = plans.iter().map(|plan| scanned(&mut store, plan)).collect();
        assert_eq!(after, before);
        assert_eq!(recover(&mut store), Ok(0));
    }
}

#[test]
fn interrupted_compaction_is_recovered_once() {
    let texts: Vec<String> = (0..1200).map(|i| format!("all u{}", i)).collect();
    let mut store = store_of(&texts);
    let all = CandidatePlan::Terms(vec!["all"]);
    let before = scanned(&mut store, &all);
    let mut reclaimed = 0;
    for changes in 0..12 {
        store = store.failing_after(Some(changes));
        let done = compact_with_mode(&mut store, CompactMode::Copy);
        store = store.failing_after(None);
        assert_eq!(scanned(&mut store, &all), before);
        reclaimed += recover(&mut store).unwrap();
        assert_eq!(recover(&mut store), Ok(0));
        assert_eq!(scanned(&mut store, &all), before);
        if done.is_ok() {
            break;
        }
    }
    assert!(reclaimed < 1000);
}

#[test]
fn vacuum_judges_every_published_owner() {
    let texts: Vec<String> = (0..300).map(|i| format!("all u{}", i)).collect();
    let mut store = store_of(&texts);
    let mut filter = RootList::new((0..300).step_by(3).map(place).collect());
    let first = vacuum(&mut store, &mut filter).unwrap();
    assert_eq!((first.live_documents, first.removed_documents), (200, 100));
    let left = scanned(&mut store, &CandidatePlan::Universe);
    assert_eq!(left, (0..300).filter(|i| i % 3 != 0).collect::<Vec<u32>>());
    let second = vacuum(&mut store, &mut filter).unwrap();
    assert_eq!((second.live_documents, second.removed_documents), (200, 0));
    assert_eq!(scanned(&mut store, &CandidatePlan::Universe), left);
}

#[test]
fn documents_are_built_in_given_memory() {
    let text = "Zum Caf\u{e9} bitte, zum Cafe\u{301}!";
    let given =
        Analyzed::analyze_in(text, AnalysisLimits::default(), Vec::new(), Vec::new(), Vec::new(), Vec::new()).unwrap();
    assert_eq!(given.normalized(), analyzed(text).normalized());
    let words: Vec<&str> = given.tokens().iter().map(|token| token.term).collect();
    assert_eq!(words, ["zum", "caf\u{e9}", "bitte", "zum", "caf\u{e9}"]);
    let composed: String =
        compose_text_in("e\u{301}x", Vec::new(), Vec::new()).unwrap().into_iter().collect();
    assert_eq!(composed, "\u{e9}x");
    let document = PreparedDocument::prepare_in(&given, Vec::new(), Vec::new()).unwrap();
    assert_eq!(document.bytes(), stored(text).bytes());
    assert_eq!((document.token_count(), document.term_count()), (5, 3));
    assert!(matches!(PreparedDocument::prepare(&given, 1), Err(Error::Budget(_))));
    let copy =
        PreparedDocument::copy_from_bytes_in(document.bytes(), Vec::new(), Vec::new()).unwrap();
    assert_eq!(copy.bytes(), document.bytes());
    assert!(PreparedDocument::copy_from_bytes_in(&[0; 3], Vec::new(), Vec::new()).is_err());
    assert!(matches!(
        PreparedDocument::copy_from_bytes(document.bytes(), 0),
        Err(Error::Budget(_))
    ));
    let small = AnalysisLimits { memory_bytes: 1, ..AnalysisLimits::default() };
    assert!(Analyzed::analyze(text, small).is_err());
    let few = AnalysisLimits { tokens: 2, ..AnalysisLimits::default() };
    let refused = Analyzed::analyze_in(text, few, Vec::new(), Vec::new(), Vec::new(), Vec::new());
    assert!(refused.is_err());
}

#[test]
fn indexes_are_built_and_searched_in_given_memory() {
    let relation =
        || RelationGeneration::new(1, 2, 3, Generation::new(1).unwrap()).unwrap();
    let texts = [analyzed("a b c"), analyzed("b c a b"), analyzed("c")];
    let documents: Vec<Document<'_>> = texts
        .iter()
        .enumerate()
        .map(|(number, text)| {
            let record = DocumentRecord {
                segment: SegmentId::new(1).unwrap(),
                incarnation: Incarnation::new(number as u64 + 1).unwrap(),
                root: place(number as u32),
                token_count: text.len(),
                profile: 1,
                publication: Publication::Published,
                live: true,
            };
            Document::new(relation(), record, text).unwrap()
        })
        .collect();
    let index = ReferenceIndex::build_in(
        relation(),
        &documents,
        IndexLimits::default(),
        Vec::new(),
        Vec::new(),
        Vec::new(),
    )
    .unwrap();
    assert_eq!(index.total_length(), 8);
    assert_eq!(index.document_frequency("b"), 2);
    let small = IndexLimits { memory_bytes: 8, ..IndexLimits::default() };
    assert!(ReferenceIndex::build(relation(), &documents, small).is_err());
    let kind = Kind::Phrase(vec!["a".to_string(), "b".to_string()]);
    let query = Query::new(vec![Node { kind }], 0).unwrap();
    let search = || {
        index
            .search_in(
                &query,
                SearchLimits::default(),
                Vec::new(),
                Vec::new(),
                Vec::new(),
                Vec::new(),
            )
            .unwrap()
    };
    assert_eq!(search().count(), Ok(2));
    let mut rest = search();
    assert_eq!(rest.next().unwrap().unwrap().ordinal, 0);
    assert_eq!(rest.count(), Ok(1));
    assert_eq!(index.candidate_count(&query, SearchLimits::default()), Ok(2));
    let tight = SearchLimits { memory_bytes: 1, ..SearchLimits::default() };
    assert!(index.search(&query, tight).is_err());
    let short = SearchLimits { work_steps: 1, ..SearchLimits::default() };
    assert!(index.candidate_count(&query, short).is_err());
}
