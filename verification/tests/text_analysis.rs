use pin_core::analysis::{AnalysisLimits, Analyzed};
use pin_core::budget::MemoryBudget;
use pin_core::error::Error;
use pin_core::normalize::compose_text;
use unicode_normalization::UnicodeNormalization;

#[test]
fn nfc_matches_independent_iterator_for_every_scalar() {
    for code in 0..=0x10ffff {
        let Some(value) = char::from_u32(code) else { continue };
        let mut budget = MemoryBudget::new(4096);
        let actual: String = compose_text(&value.to_string(), &mut budget)
            .unwrap()
            .into_iter()
            .collect();
        assert_eq!(actual, value.to_string().nfc().collect::<String>(), "{code:x}");
        assert_eq!(budget.used(), 0);
    }
}

#[test]
fn composition_orders_marks_and_honors_blocking() {
    for text in [
        "a\u{323}\u{301}",
        "a\u{301}\u{323}",
        "q\u{307}\u{323}",
        "\u{1100}\u{1161}\u{11a8}",
        "\u{301}a",
        "e\u{5b0}\u{301}\u{94d}",
        "a\u{315}\u{300}\u{5ae}b",
    ] {
        let mut budget = MemoryBudget::new(4096);
        let actual: String = compose_text(text, &mut budget).unwrap().into_iter().collect();
        assert_eq!(actual, text.nfc().collect::<String>(), "{text:?}");
    }
}

#[test]
fn analysis_normalizes_folds_and_segments() {
    let text = "The QUICK (\"Br\u{f6}wn\") fox can't jump 32.3 feet, \u{1e9e}ight?";
    let document = Analyzed::analyze(text, AnalysisLimits::default()).unwrap();
    assert_eq!(
        document.normalized(),
        "the quick (\"br\u{f6}wn\") fox can't jump 32.3 feet, \u{df}ight?"
    );
    let words: Vec<&str> = document.tokens().iter().map(|token| token.term).collect();
    assert_eq!(
        words,
        ["the", "quick", "br\u{f6}wn", "fox", "can't", "jump", "32.3", "feet", "\u{df}ight"]
    );
    assert_eq!(document.len(), 9);
    assert!(!document.is_empty());
    assert_eq!(document.profile(), 1);
    let token = document.token(2).unwrap();
    assert_eq!((token.term, token.position), ("br\u{f6}wn", 2));
    assert!(document.token(9).is_none());
    assert!(document.retained_bytes() <= document.peak_bytes());
}

#[test]
fn composed_and_decomposed_spellings_agree() {
    let one = Analyzed::analyze("CAF\u{c9}", AnalysisLimits::default()).unwrap();
    let two = Analyzed::analyze("cafe\u{301}", AnalysisLimits::default()).unwrap();
    assert_eq!(one.normalized(), two.normalized());
    assert_eq!(one.normalized(), "caf\u{e9}");
}

#[test]
fn analysis_rejects_what_exceeds_its_limits() {
    let limits = AnalysisLimits::default();
    assert_eq!(
        Analyzed::analyze("abcd", AnalysisLimits { input_bytes: 3, ..limits }).err(),
        Some(Error::Limit("document bytes"))
    );
    assert_eq!(
        Analyzed::analyze("abcd", AnalysisLimits { normalized_bytes: 3, ..limits }).err(),
        Some(Error::Limit("normalized bytes"))
    );
    assert_eq!(
        Analyzed::analyze("\u{e9}\u{e9}", AnalysisLimits { normalized_bytes: 3, ..limits }).err(),
        Some(Error::Limit("element count"))
    );
    assert_eq!(
        Analyzed::analyze("ab abc", AnalysisLimits { term_bytes: 2, ..limits }).err(),
        Some(Error::Limit("term bytes"))
    );
    assert_eq!(
        Analyzed::analyze("a b c", AnalysisLimits { tokens: 2, ..limits }).err(),
        Some(Error::Limit("element count"))
    );
    assert!(matches!(
        Analyzed::analyze("abcd", AnalysisLimits { memory_bytes: 3, ..limits }),
        Err(Error::Budget(_))
    ));
}
