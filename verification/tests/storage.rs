use pin_core::callbacks::{Found, RootList};
use pin_core::candidate::CandidatePlan;
use pin_core::codec::bytes::Writer;
use pin_core::codec::source::Bytes;
use pin_core::error::Error;
use pin_core::identity::{HeapLayout, RootTid};
use pin_core::memory::Scratch;
use pin_core::mutable::block_phrase;
use pin_core::mutable::compact::compact;
use pin_core::mutable::count::{scan_count, CountCandidate};
use pin_core::mutable::document::{validate_in, PreparedDocument};
use pin_core::mutable::grouped::rebuild::{build_memory, needs_rebuild, rebuild};
use pin_core::mutable::grouped::scan::{scan_exact, supports_exact, ExactList};
use pin_core::mutable::membership::phrase_matches_in;
use pin_core::mutable::memory::{MemorySort, MemoryStore};
use pin_core::mutable::query::{scan_query, scan_query_with_options, scan_query_with_recheck};
use pin_core::mutable::reader::scan;
use pin_core::mutable::vacuum::vacuum;
use pin_core::mutable::writer::{initialize, insert};
use pin_core::query::{Kind, Node, Query};

fn layout() -> HeapLayout {
    HeapLayout::new(291).unwrap()
}

fn document(text: &str) -> PreparedDocument {
    let words: Vec<&str> = text.split_whitespace().collect();
    let mut terms: Vec<&str> = words.clone();
    terms.sort();
    terms.dedup();
    let mut bytes = vec![0u8; 65536];
    let len = {
        let mut writer = Writer::new(&mut bytes);
        writer.put(b"PD02").unwrap();
        writer.u32(1).unwrap();
        writer.u32(words.len() as u32).unwrap();
        writer.u32(terms.len() as u32).unwrap();
        for term in &terms {
            let positions: Vec<u32> = (0..words.len() as u32)
                .filter(|&i| words[i as usize] == *term)
                .collect();
            let mut code = [0u8; 4096];
            let size =
                pin_core::codec::positions::encode(&positions, &mut code, 262_144).unwrap();
            writer.u16(term.len() as u16).unwrap();
            writer.u16(0).unwrap();
            writer.u32(size as u32).unwrap();
            writer.put(term.as_bytes()).unwrap();
            writer.put(&code[..size]).unwrap();
        }
        writer.len()
    };
    PreparedDocument::copy_from_bytes(&bytes[..len], 1 << 20).unwrap()
}

fn root(number: u32) -> RootTid {
    RootTid::new(number / 100, (number % 100 + 1) as u16, layout()).unwrap()
}

fn filled(texts: &[&str]) -> MemoryStore {
    let mut store = MemoryStore::new(layout(), false, false);
    initialize(&mut store).unwrap();
    for (number, text) in texts.iter().enumerate() {
        let place = root(number as u32);
        insert(&mut store, place, &document(text)).unwrap();
    }
    store
}

fn query(kinds: Vec<Kind>) -> Query {
    let root = kinds.len() - 1;
    let nodes = kinds.into_iter().map(|kind| Node { kind }).collect();
    Query::new(nodes, root).unwrap()
}

fn term(text: &str) -> Kind {
    Kind::Term(text.to_string())
}

fn found(store: &mut MemoryStore, query: &Query) -> Vec<(u32, bool)> {
    let mut list: Vec<Found> = Vec::new();
    let count = scan_query_with_recheck(store, query, 1 << 22, &mut list).unwrap();
    assert_eq!(count, list.len() as u64);
    list.iter()
        .map(|item| (item.root.block() * 100 + u32::from(item.root.offset()) - 1, item.recheck))
        .collect()
}

const TEXTS: [&str; 5] = ["a b c", "b c d", "a c e", "c a b", "x"];

#[test]
fn inserted_documents_are_found_by_their_terms() {
    let mut store = filled(&TEXTS);
    assert_eq!(found(&mut store, &query(vec![term("a")])), [(0, false), (2, false), (3, false)]);
    assert_eq!(found(&mut store, &query(vec![term("x")])), [(4, false)]);
    assert_eq!(found(&mut store, &query(vec![term("missing")])), []);
    assert_eq!(found(&mut store, &query(vec![Kind::Nothing])), []);
    let mut roots: Vec<RootTid> = Vec::new();
    let count = scan_query(&mut store, &query(vec![term("b")]), 1 << 20, &mut roots).unwrap();
    assert_eq!((count, roots.len()), (3, 3));
}

#[test]
fn boolean_plans_intersect_and_unite() {
    let mut store = filled(&TEXTS);
    let both = query(vec![term("a"), term("b"), Kind::And(0, 1)]);
    assert_eq!(found(&mut store, &both), [(0, false), (3, false)]);
    let either = query(vec![term("e"), term("x"), Kind::Or(0, 1)]);
    assert_eq!(found(&mut store, &either), [(2, false), (4, false)]);
    let nested = query(vec![
        term("a"),
        term("d"),
        Kind::Or(0, 1),
        term("b"),
        Kind::And(2, 3),
    ]);
    assert_eq!(found(&mut store, &nested), [(0, false), (1, false), (3, false)]);
    let negated = query(vec![term("a"), term("b"), Kind::Not(1), Kind::And(0, 2)]);
    assert_eq!(found(&mut store, &negated), [(0, true), (2, true), (3, true)]);
    let prefix = query(vec![Kind::Prefix("a".to_string())]);
    assert_eq!(found(&mut store, &prefix).len(), 5);
}

#[test]
fn phrases_are_decided_by_positions() {
    let mut store = filled(&TEXTS);
    let phrase = query(vec![Kind::Phrase(vec!["a".to_string(), "b".to_string()])]);
    assert_eq!(found(&mut store, &phrase), [(0, true), (3, true)]);
    let mut list: Vec<Found> = Vec::new();
    scan_query_with_options(&mut store, &phrase, 1 << 22, true, &mut list).unwrap();
    assert!(list.iter().all(|item| !item.recheck));
    assert_eq!(list.len(), 2);
    let absent = query(vec![Kind::Phrase(vec!["c".to_string(), "b".to_string()])]);
    let mut list: Vec<Found> = Vec::new();
    scan_query_with_options(&mut store, &absent, 1 << 22, true, &mut list).unwrap();
    assert!(list.is_empty());
}

#[test]
fn small_budgets_fall_back_to_a_cover() {
    let mut store = filled(&TEXTS);
    let both = query(vec![term("a"), term("b"), Kind::And(0, 1)]);
    let mut list: Vec<Found> = Vec::new();
    scan_query_with_recheck(&mut store, &both, 4096, &mut list).unwrap();
    assert!(list.iter().all(|item| item.recheck));
    assert_eq!(list.len(), 3);
}

#[test]
fn covers_and_counts_stream_candidates() {
    let mut store = filled(&TEXTS);
    let both = query(vec![term("a"), term("b"), Kind::And(0, 1)]);
    let plan = CandidatePlan::build(&both, 1 << 20).unwrap();
    let mut roots: Vec<RootTid> = Vec::new();
    assert_eq!(scan(&mut store, &plan, &mut roots).unwrap(), 3);
    let mut candidates: Vec<CountCandidate> = Vec::new();
    assert_eq!(scan_count(&mut store, &query(vec![term("c")]), &mut candidates).unwrap(), 4);
    assert!(candidates.iter().all(|candidate| !candidate.sealed_term));
    let mut all: Vec<CountCandidate> = Vec::new();
    assert_eq!(scan_count(&mut store, &both, &mut all).unwrap(), 5);
}

#[test]
fn vacuum_removes_and_compaction_seals() {
    let texts: Vec<String> = (0..400).map(|i| format!("all t{} u{}", i % 7, i)).collect();
    let borrowed: Vec<&str> = texts.iter().map(String::as_str).collect();
    let mut store = filled(&borrowed);
    let all = query(vec![term("all")]);
    assert_eq!(found(&mut store, &all).len(), 400);
    let removed: Vec<RootTid> = (0..400).step_by(2).map(|i| root(i)).collect();
    let mut filter = RootList::new(removed);
    vacuum(&mut store, &mut filter).unwrap();
    let left = found(&mut store, &all);
    assert_eq!(left.len(), 200);
    assert!(left.iter().all(|item| item.0 % 2 == 1));
    compact(&mut store).unwrap();
    assert_eq!(found(&mut store, &all), left);
    let seventh = query(vec![term("all"), term("t3"), Kind::And(0, 1)]);
    let expected: Vec<(u32, bool)> =
        (0..400).filter(|i| i % 2 == 1 && i % 7 == 3).map(|i| (i, false)).collect();
    assert_eq!(found(&mut store, &seventh), expected);
}

#[test]
fn failed_commits_surface_and_leave_readable_pages() {
    let mut store = filled(&TEXTS);
    let mut failures = 0;
    for changes in 0..100 {
        store = store.failing_after(Some(changes));
        let inserted = insert(&mut store, root(50), &document("a z"));
        store = store.failing_after(None);
        if inserted.is_ok() {
            break;
        }
        failures += 1;
        assert_eq!(
            found(&mut store, &query(vec![term("a")])),
            [(0, false), (2, false), (3, false)]
        );
    }
    assert!(failures > 2);
    assert_eq!(
        found(&mut store, &query(vec![term("a")])),
        [(0, false), (2, false), (3, false), (50, false)]
    );
}

fn exact(store: &mut MemoryStore, query: &Query) -> Option<Vec<u32>> {
    let mut list = ExactList { blocks: Vec::new(), found: Vec::new() };
    let count = scan_exact(store, query, 1 << 28, &mut list).unwrap()?;
    let mut numbers: Vec<u32> = Vec::new();
    for (block, offsets) in &list.blocks {
        for bit in 0..512u32 {
            if offsets[bit as usize / 64] >> (bit % 64) & 1 == 1 {
                numbers.push(block * 100 + bit);
            }
        }
    }
    for root in &list.found {
        numbers.push(root.block() * 100 + u32::from(root.offset()) - 1);
    }
    assert_eq!(count, numbers.len() as u64);
    numbers.sort();
    Some(numbers)
}

#[test]
fn grouped_snapshots_answer_like_postings() {
    for (anchors, owners) in [(false, false), (true, false), (true, true)] {
        let texts: Vec<String> = (0..1500).map(|i| format!("all t{} u{}", i % 7, i)).collect();
        let borrowed: Vec<&str> = texts[..900].iter().map(String::as_str).collect();
        let mut store = filled(&borrowed);
        store = store.with_abilities(anchors, owners);
        let mixed = query(vec![
            term("t3"),
            term("t5"),
            Kind::Or(0, 1),
            term("u10"),
            Kind::Not(3),
            Kind::And(2, 4),
        ]);
        assert!(supports_exact(&mixed));
        assert_eq!(exact(&mut store, &mixed), None);
        let mut sorter = MemorySort::new();
        assert_eq!(
            rebuild(&mut store, &mut sorter, 1000).err(),
            Some(Error::Limit("group build scratch"))
        );
        let stats = rebuild(&mut store, &mut sorter, 1 << 26).unwrap();
        assert_eq!(stats.documents, 900);
        assert!(build_memory(layout()) <= 1 << 26);
        assert!(!needs_rebuild(&mut store).unwrap());
        let expected: Vec<u32> =
            (0..900).filter(|i| (i % 7 == 3 || i % 7 == 5) && *i != 10).collect();
        assert_eq!(exact(&mut store, &mixed), Some(expected));
        for (number, text) in texts.iter().enumerate().skip(900) {
            let place = root(number as u32);
            insert(&mut store, place, &document(text)).unwrap();
        }
        let expected: Vec<u32> =
            (0..1500).filter(|i| (i % 7 == 3 || i % 7 == 5) && *i != 10).collect();
        assert_eq!(exact(&mut store, &mixed), Some(expected));
        let single = query(vec![term("u77")]);
        assert_eq!(exact(&mut store, &single), Some(vec![77]));
        let everything = query(vec![term("none"), Kind::Not(0)]);
        assert_eq!(exact(&mut store, &everything).unwrap().len(), 1500);
        let phrase = query(vec![Kind::Phrase(vec!["all".to_string()])]);
        assert!(!supports_exact(&phrase));
    }
}

#[test]
fn phrases_match_in_fetched_documents() {
    let bytes = b"PD03\x01\0\0\0\x05\0\0\0\x02\0\0\0\x01\0\0\0\x07\0\0\0a\x03\0\0\0\x01\x01\x01\x01\0\0\0\x06\0\0\0b\x02\0\0\0\0\x04";
    assert_eq!(bytes.len(), 47);
    let prepared = document("b a a");
    assert_eq!(validate_in(prepared.bytes(), Vec::new()), Ok((3, 2)));
    assert_eq!(validate_in(bytes, Vec::new()), Err(Error::InvalidProfile));
    let phrase = ["a".to_string(), "a".to_string()];
    assert_eq!(phrase_matches_in(prepared.bytes(), 3, 2, &phrase, Vec::new()), Ok(true));
    assert_eq!(
        phrase_matches_in(prepared.bytes(), 3, 3, &phrase, Vec::new()),
        Err(Error::InvalidDocument)
    );
    assert_eq!(
        phrase_matches_in(prepared.bytes(), 3, 2, &[], Vec::new()),
        Err(Error::Limit("phrase terms"))
    );
    let phrase = |words: &[&str], memory: usize| {
        let wanted: Vec<String> = words.iter().map(|word| word.to_string()).collect();
        let mut retained = Scratch::new();
        block_phrase::matches(
            47,
            5,
            2,
            &wanted,
            memory,
            &mut retained,
            &mut Bytes::new(bytes),
            &mut (),
        )
    };
    assert_eq!(phrase(&["a", "b"], 1 << 20), Ok(Some(true)));
    assert_eq!(phrase(&["b", "a"], 1 << 20), Ok(Some(true)));
    assert_eq!(phrase(&["a", "a", "a"], 1 << 20), Ok(Some(true)));
    assert_eq!(phrase(&["a", "a", "a", "a"], 1 << 20), Ok(Some(false)));
    assert_eq!(phrase(&["c"], 1 << 20), Ok(Some(false)));
    assert_eq!(phrase(&["a"], 1000), Ok(None));
    assert_eq!(phrase(&[], 1 << 20), Err(Error::InvalidDocument));
}
