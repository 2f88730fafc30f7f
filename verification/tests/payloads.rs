use pin_core::analysis::{AnalysisLimits, Analyzed};
use pin_core::callbacks::{Found, RootList};
use pin_core::identity::{HeapLayout, RootTid};
use pin_core::mutable::document::PreparedDocument;
use pin_core::mutable::grouped::rebuild::rebuild;
use pin_core::mutable::grouped::scan::{expand_page, scan_query, ExactList};
use pin_core::mutable::membership::TermMembership;
use pin_core::mutable::memory::{MemorySort, MemoryStore};
use pin_core::mutable::compact::{compact_with_mode, CompactMode};
use pin_core::mutable::page::{Page, PageKind};
use pin_core::mutable::store::PageStore;
use pin_core::mutable::query::{scan_query_with_options, scan_query_with_recheck};
use pin_core::mutable::vacuum::vacuum;
use pin_core::mutable::writer::{initialize, insert};
use pin_core::error::Error;
use pin_core::query::{Kind, Node, Query};

fn layout() -> HeapLayout {
    HeapLayout::new(291).unwrap()
}

fn prepared(text: &str) -> PreparedDocument {
    let analyzed = Analyzed::analyze(text, AnalysisLimits::default()).unwrap();
    PreparedDocument::prepare(&analyzed, 1 << 22).unwrap()
}

fn place(number: u32) -> RootTid {
    RootTid::new(number / 100, (number % 100 + 1) as u16, layout()).unwrap()
}

fn number(root: RootTid) -> u32 {
    root.block() * 100 + u32::from(root.offset()) - 1
}

fn store_of(texts: &[String]) -> MemoryStore {
    let mut store = MemoryStore::new(layout(), false, false);
    initialize(&mut store).unwrap();
    for (number, text) in texts.iter().enumerate() {
        insert(&mut store, place(number as u32), &prepared(text)).unwrap();
    }
    store
}

fn query(kinds: Vec<Kind>) -> Query {
    let root = kinds.len() - 1;
    let nodes = kinds.into_iter().map(|kind| Node { kind }).collect();
    Query::new(nodes, root).unwrap()
}

fn term(text: &str) -> Kind {
    Kind::Term(text.to_string())
}

fn phrase(words: &[&str]) -> Query {
    query(vec![Kind::Phrase(words.iter().map(|word| word.to_string()).collect())])
}

fn numbered(list: &[Found]) -> Vec<(u32, bool)> {
    list.iter().map(|item| (number(item.root), item.recheck)).collect()
}

fn long_text(count: u32) -> String {
    let words: Vec<String> = (0..count).map(|i| format!("w{}", i)).collect();
    words.join(" ")
}

#[test]
fn phrases_are_decided_by_fragmented_payloads() {
    let text = long_text(3000);
    assert!(prepared(&text).bytes().len() > 8108);
    let mut store = store_of(&[text, "w0 w1 w998 w999".to_string()]);
    let answers = |store: &mut MemoryStore, words: &[&str], memory: usize| {
        let mut list: Vec<Found> = Vec::new();
        scan_query_with_options(store, &phrase(words), memory, true, &mut list).unwrap();
        numbered(&list)
    };
    assert_eq!(answers(&mut store, &["w0", "w1"], 1 << 22), [(0, false), (1, false)]);
    assert_eq!(answers(&mut store, &["w998", "w999"], 1 << 22), [(0, false), (1, false)]);
    assert_eq!(answers(&mut store, &["w1", "w998"], 1 << 22), [(1, false)]);
    assert_eq!(answers(&mut store, &["w999", "w998"], 1 << 22), []);
    assert_eq!(answers(&mut store, &["w998", "w999"], 40_000), [(0, true), (1, false)]);
}

#[test]
fn grouped_queries_fall_back_where_bitmaps_cannot_answer() {
    let texts: Vec<String> = (0..400).map(|i| format!("all t{} u{}", i % 5, i)).collect();
    let mut store = store_of(&texts);
    let mixed = || query(vec![term("t1"), term("t3"), Kind::Or(0, 1)]);
    let answers = |store: &mut MemoryStore, query: &Query, memory: usize| {
        let mut exact = ExactList { blocks: Vec::new(), found: Vec::new() };
        let mut list: Vec<Found> = Vec::new();
        let count = scan_query(store, query, memory, &mut exact, &mut list).unwrap();
        let mut sealed: Vec<Found> = Vec::new();
        for (block, offsets) in &exact.blocks {
            expand_page(layout(), *block, offsets, &mut sealed).unwrap();
        }
        for root in &exact.found {
            sealed.push(Found { root: *root, recheck: false });
        }
        assert_eq!(count, (sealed.len() + list.len()) as u64);
        (numbered(&sealed), numbered(&list))
    };
    let expected: Vec<(u32, bool)> =
        (0..400).filter(|i| i % 5 == 1 || i % 5 == 3).map(|i| (i, false)).collect();
    assert_eq!(answers(&mut store, &mixed(), 1 << 24), (vec![], expected.clone()));
    let mut sorter = MemorySort::new();
    rebuild(&mut store, &mut sorter, 1 << 26).unwrap();
    assert_eq!(answers(&mut store, &mixed(), 1 << 24), (expected.clone(), vec![]));
    assert_eq!(answers(&mut store, &mixed(), 100_000), (vec![], expected));
    let words = phrase(&["all", "t1"]);
    let mut plain: Vec<Found> = Vec::new();
    scan_query_with_recheck(&mut store, &words, 1 << 24, &mut plain).unwrap();
    assert_eq!(answers(&mut store, &words, 1 << 24), (vec![], numbered(&plain)));
}

#[test]
fn page_masks_are_expanded_in_order() {
    let mut offsets = [0u64; 8];
    offsets[0] = 1 | 1 << 63;
    offsets[1] = 1 << 2;
    let mut list: Vec<Found> = Vec::new();
    assert_eq!(expand_page(layout(), 7, &offsets, &mut list), Ok(()));
    assert_eq!(numbered(&list), [(700, false), (763, false), (766, false)]);
    offsets[4] = 1 << 63;
    let mut list: Vec<Found> = Vec::new();
    assert_eq!(expand_page(layout(), 7, &offsets, &mut list), Err(Error::InvalidState));
    assert_eq!(list.len(), 3);
}

#[test]
fn vacuum_leaves_nothing_for_a_second_pass() {
    let texts: Vec<String> =
        (0..6).map(|i| format!("only{} {}", i, long_text(1500 + i))).collect();
    let mut store = store_of(&texts);
    let mut filter = RootList::new(vec![place(1), place(4)]);
    let first = vacuum(&mut store, &mut filter).unwrap();
    assert_eq!((first.live_documents, first.removed_documents), (4, 2));
    assert!(first.reclaimed_pages >= 4);
    let again = vacuum(&mut store, &mut filter).unwrap();
    assert_eq!((again.live_documents, again.removed_documents), (4, 0));
    assert_eq!((again.abandoned_documents, again.reclaimed_pages), (0, 0));
    assert_eq!(again.free_pages, first.free_pages);
    let mut list: Vec<Found> = Vec::new();
    scan_query_with_options(&mut store, &phrase(&["w998", "w999"]), 1 << 22, true, &mut list)
        .unwrap();
    assert_eq!(numbered(&list), [(0, false), (2, false), (3, false), (5, false)]);
}

#[test]
fn stored_terms_are_those_of_the_document() {
    let document = prepared("d b a b c");
    let names = [Some("a"), None, Some("e"), Some("d"), Some("b")];
    let membership = TermMembership::new(&names).unwrap();
    assert_eq!(membership.read(document.bytes(), 5, 4), Ok(0b11001));
    assert_eq!(membership.read(document.bytes(), 5, 3), Err(Error::InvalidDocument));
}

fn found_of(store: &mut MemoryStore, query: &Query) -> Result<Vec<(u32, bool)>, Error> {
    let mut exact = ExactList { blocks: Vec::new(), found: Vec::new() };
    let mut list: Vec<Found> = Vec::new();
    scan_query(store, query, 1 << 24, &mut exact, &mut list)?;
    for (block, offsets) in &exact.blocks {
        expand_page(layout(), *block, offsets, &mut list)?;
    }
    for root in &exact.found {
        list.push(Found { root: *root, recheck: false });
    }
    Ok(numbered(&list))
}

// the chain of a term is made to begin with its second page.
fn behead(store: &mut MemoryStore, text: &str) {
    for block in 0..store.blocks().unwrap() {
        let mut page: Page = store.read(block).unwrap();
        if page.kind() != PageKind::Dictionary {
            continue;
        }
        let mut met = None;
        let mut terms = page.terms().unwrap();
        while let Some(entry) = terms.next() {
            let entry = entry.unwrap();
            if entry.term == text {
                met = Some((entry.reference, entry.head, entry.tail));
            }
        }
        if let Some((reference, head, tail)) = met {
            assert_ne!(head, tail);
            let second = store.read(head).unwrap().next().unwrap();
            assert_ne!(second, tail);
            page.set_posting_chain(reference, second, tail).unwrap();
            store.commit(&[&page]).unwrap();
            return;
        }
    }
    panic!("no such term");
}

#[test]
fn an_anchor_that_does_not_fit_its_term_is_refused() {
    let both = || query(vec![term("all"), term("t1"), Kind::And(0, 1)]);
    let expected: Vec<(u32, bool)> =
        (0..6000).filter(|i| i % 5 == 1).map(|i| (i, false)).collect();
    for anchored in [true, false] {
        let mut store = MemoryStore::new(layout(), anchored, false);
        initialize(&mut store).unwrap();
        for number in 0..6000u32 {
            if number == 3000 {
                let mut sorter = MemorySort::new();
                rebuild(&mut store, &mut sorter, 1 << 26).unwrap();
            }
            let text = format!("all t{}", number % 5);
            insert(&mut store, place(number), &prepared(&text)).unwrap();
        }
        assert_eq!(found_of(&mut store, &both()), Ok(expected.clone()));
        behead(&mut store, "all");
        if anchored {
            assert_eq!(found_of(&mut store, &both()), Err(Error::InvalidState));
        } else {
            assert_eq!(found_of(&mut store, &both()), Ok(expected.clone()));
        }
    }
}

#[test]
fn direct_pages_tell_of_roots_until_they_are_rewritten() {
    let texts: Vec<String> = (0..50).map(|i| format!("all t{}", i % 2)).collect();
    let mut store = store_of(&texts);
    compact_with_mode(&mut store, CompactMode::DirectTid).unwrap();
    let both = query(vec![term("all"), term("t1"), Kind::And(0, 1)]);
    let answers = |store: &mut MemoryStore| {
        let mut list: Vec<Found> = Vec::new();
        scan_query_with_recheck(store, &both, 1 << 22, &mut list).unwrap();
        numbered(&list)
    };
    let expected: Vec<(u32, bool)> = (0..50).filter(|i| i % 2 == 1).map(|i| (i, false)).collect();
    assert_eq!(answers(&mut store), expected);
    let mut filter = RootList::new(vec![place(7)]);
    vacuum(&mut store, &mut filter).unwrap();
    assert_eq!(answers(&mut store), expected);
    compact_with_mode(&mut store, CompactMode::DirectTid).unwrap();
    let fewer: Vec<(u32, bool)> = expected.into_iter().filter(|item| item.0 != 7).collect();
    assert_eq!(answers(&mut store), fewer);
}

fn pages_of(store: &mut MemoryStore, kind: PageKind) -> usize {
    let count = store.blocks().unwrap();
    (0..count).filter(|block| store.read(*block).unwrap().kind() == kind).count()
}

#[test]
fn compaction_seals_and_then_rests() {
    for (mode, kind) in [
        (CompactMode::DirectTid, PageKind::DirectPostings),
        (CompactMode::RetainSealedPrefix, PageKind::SealedPostings),
    ] {
        let texts: Vec<String> = (0..60).map(|i| format!("all t{}", i % 3)).collect();
        let mut store = store_of(&texts);
        assert_eq!(pages_of(&mut store, PageKind::Postings), 4);
        let first = compact_with_mode(&mut store, mode).unwrap();
        assert_eq!((first.rewritten_terms, first.written_pages), (4, 4));
        assert_eq!((first.removed_postings, first.reclaimed_pages), (0, 4));
        assert_eq!(pages_of(&mut store, PageKind::Postings), 0);
        assert_eq!(pages_of(&mut store, kind), 4);
        let again = compact_with_mode(&mut store, mode).unwrap();
        assert_eq!((again.rewritten_terms, again.written_pages), (0, 0));
        assert_eq!((again.removed_postings, again.reclaimed_pages), (0, 0));
        assert_eq!(pages_of(&mut store, kind), 4);
    }
}
