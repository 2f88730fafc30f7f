//! What normalization and analysis make of texts: spellings that differ in case
//! alone, or in the order of marks alone, are one.

use crate::analysis::{analyzed, AnalysisLimits, AnalyzedModel};
use crate::normalize::{
    ascii_lower, by_class, canonical_composition, canonical_decomposition, combining_class,
    composed, composing, decompositions, foldable, folded, folded_char, nfc, one_taken, profiled,
    simple_folding, taken,
};
use vstd::prelude::*;
use vstd::utf8::{encode_utf8, encode_utf8_decode_utf8, is_ascii_chars, is_ascii_chars_encode_utf8};

verus! {

/// Folding is by code: a character becomes the one whose code its simple folding
/// gives, whatever the code; one without a folding stays; a code that no
/// character has is refused.
pub proof fn folding_is_by_code(value: char)
    ensures
        match simple_folding(value) {
            None => folded_char(value) == Some(value),
            Some(code) => if code < 0xD800 || 0xE000 <= code <= 0x10FFFF {
                folded_char(value) matches Some(folded) && folded as u32 == code
            } else {
                folded_char(value) is None
            },
        },
{
    if let Some(code) = simple_folding(value) {
        if code < 0xD800 || 0xE000 <= code <= 0x10FFFF {
            assert((code as char) as u32 == code);
        }
    }
}

/// Whether a character is its own folding.
pub open spec fn folds_to_itself(value: char) -> bool {
    match simple_folding(value) {
        None => true,
        Some(code) => code == value as u32,
    }
}

/// Whether a character is another one or its simple folding, which folds to itself.
pub open spec fn case_variant(value: char, other: char) -> bool {
    other == value || (simple_folding(value) == Some(other as u32) && folds_to_itself(other))
}

/// Whether characters are others or their simple foldings, one by one.
pub open spec fn case_variants(values: Seq<char>, others: Seq<char>) -> bool {
    &&& values.len() == others.len()
    &&& forall|i: int| 0 <= i < values.len() ==> case_variant(#[trigger] values[i], others[i])
}

/// A character and its simple folding have one folded form.
pub proof fn folding_joins_cases(value: char, other: char)
    requires
        case_variant(value, other),
    ensures
        folded_char(value) == folded_char(other),
        other != value ==> folded_char(value) == Some(other),
{
    folding_is_by_code(value);
    folding_is_by_code(other);
    vstd::utf8::char_u32_cast(other, other as u32);
    if other != value {
        let folded = folded_char(value)->Some_0;
        vstd::utf8::char_is_scalar(other);
        vstd::utf8::char_u32_cast(folded, folded as u32);
        if let Some(code) = simple_folding(other) {
            let again = folded_char(other)->Some_0;
            vstd::utf8::char_u32_cast(again, again as u32);
        }
    }
}

/// Texts whose composed forms differ by simple foldings alone have one
/// normalized form.
pub proof fn case_does_not_matter(text: Seq<char>, other: Seq<char>)
    requires
        case_variants(nfc(text), nfc(other)),
        !is_ascii_chars(text),
        !is_ascii_chars(other),
    ensures
        profiled(text) == profiled(other),
{
    let (left, right) = (nfc(text), nfc(other));
    assert forall|i: int| 0 <= i < left.len() implies folded_char(#[trigger] left[i])
        == folded_char(right[i]) by {
        folding_joins_cases(left[i], right[i]);
    }
    assert(foldable(left) == foldable(right)) by {
        if foldable(left) {
            assert forall|i: int| 0 <= i < right.len() implies folded_char(#[trigger] right[i])
                is Some by {
                assert(folded_char(left[i]) is Some);
            }
        }
        if foldable(right) {
            assert forall|i: int| 0 <= i < left.len() implies folded_char(#[trigger] left[i])
                is Some by {
                assert(folded_char(right[i]) is Some);
            }
        }
    }
    assert(folded(left) =~= folded(right)) by {
        assert forall|i: int| 0 <= i < left.len() implies folded(left)[i] == folded(right)[i] by {
            assert(folded_char(left[i]) == folded_char(right[i]));
        }
    }
}

/// Whether an ASCII text is another one, or has small letters for some of its
/// capitals.
pub open spec fn ascii_variants(text: Seq<char>, other: Seq<char>) -> bool {
    &&& text.len() == other.len()
    &&& forall|i: int|
        0 <= i < text.len() ==> other[i] == #[trigger] text[i] || ('A' <= text[i] <= 'Z'
            && other[i] as u32 == text[i] as u32 + 32)
}

/// ASCII texts that differ in case alone have one normalized form. It has no
/// capitals, and is the text itself where that has none.
pub proof fn ascii_case_does_not_matter(text: Seq<char>, other: Seq<char>)
    requires
        is_ascii_chars(text),
        is_ascii_chars(other),
        ascii_variants(text, other),
    ensures
        profiled(text) == profiled(other),
        profiled(text) matches Some(bytes) && forall|i: int|
            0 <= i < bytes.len() ==> !('A' as u8 <= #[trigger] bytes[i] <= 'Z' as u8),
        (forall|i: int| 0 <= i < text.len() ==> !('A' <= #[trigger] text[i] <= 'Z')) ==> profiled(
            text,
        ) == Some(encode_utf8(text)),
{
    is_ascii_chars_encode_utf8(text);
    is_ascii_chars_encode_utf8(other);
    let (left, right) = (profiled(text)->Some_0, profiled(other)->Some_0);
    assert(left =~= right) by {
        assert forall|i: int| 0 <= i < text.len() implies left[i] == right[i] by {
            assert(text[i] as u8 == encode_utf8(text)[i]);
            assert(other[i] as u8 == encode_utf8(other)[i]);
        }
    }
    assert forall|i: int| 0 <= i < left.len() implies !('A' as u8 <= #[trigger] left[i]
        <= 'Z' as u8) by {
        assert(left[i] == ascii_lower(encode_utf8(text)[i]));
    }
    if forall|i: int| 0 <= i < text.len() ==> !('A' <= #[trigger] text[i] <= 'Z') {
        assert(left =~= encode_utf8(text)) by {
            assert forall|i: int| 0 <= i < text.len() implies left[i] == encode_utf8(text)[i] by {
                assert(text[i] as u8 == encode_utf8(text)[i]);
            }
        }
    }
}

/// Texts with one normalized form are analyzed to the same words.
pub proof fn one_form_one_analysis(
    text: &str,
    other: &str,
    limits: AnalysisLimits,
    given: (bool, bool),
    left: AnalyzedModel,
    right: AnalyzedModel,
)
    requires
        profiled(text@) == profiled(other@),
        analyzed(text, limits, given.0, Ok(left)),
        analyzed(other, limits, given.1, Ok(right)),
    ensures
        left.normalized == right.normalized,
        left.words == right.words,
{
    let one = choose|normalized: Seq<char>|
        left.normalized == #[trigger] encode_utf8(normalized) && left.words
            == crate::analysis::words_of(normalized);
    let two = choose|normalized: Seq<char>|
        right.normalized == #[trigger] encode_utf8(normalized) && right.words
            == crate::analysis::words_of(normalized);
    encode_utf8_decode_utf8(one);
    encode_utf8_decode_utf8(two);
    assert(one == two);
}

/// Whether normalization form C leaves a character alone: it has no decomposition
/// and starts a sequence.
pub open spec fn inert(value: char) -> bool {
    canonical_decomposition(value) == seq![value] && combining_class(value) == 0
}

/// Characters that do not decompose are their own decompositions.
proof fn inert_decompositions(values: Seq<char>)
    requires
        forall|i: int|
            0 <= i < values.len() ==> canonical_decomposition(#[trigger] values[i]) == seq![
                values[i],
            ],
    ensures
        decompositions(values) == values,
    decreases values.len(),
{
    if values.len() > 0 {
        let front = values.drop_last();
        assert forall|i: int| 0 <= i < front.len() implies canonical_decomposition(
            #[trigger] front[i],
        ) == seq![front[i]] by {
            assert(front[i] == values[i]);
        }
        inert_decompositions(front);
        assert(canonical_decomposition(values[values.len() - 1]) == seq![values.last()]);
        assert(front + seq![values.last()] =~= values);
    } else {
        assert(values =~= Seq::empty());
    }
}

/// No mark is in order.
proof fn no_marks()
    ensures
        by_class(Seq::empty(), 0) == Seq::<char>::empty(),
{
    no_marks_from(0);
}

proof fn no_marks_from(least: int)
    requires
        0 <= least <= 256,
    ensures
        by_class(Seq::empty(), least) == Seq::<char>::empty(),
    decreases 256 - least,
{
    if least < 256 {
        no_marks_from(least + 1);
        reveal(Seq::filter);
        let none = Seq::<char>::empty();
        let pred = |value: char| combining_class(value) == least;
        assert(none.filter(pred) =~= none);
        assert(by_class(none, least) =~= none);
    }
}

/// A starter alone is composed.
proof fn starter_composed(value: char)
    requires
        combining_class(value) == 0,
    ensures
        composed(seq![value]) == seq![value],
{
    let one = seq![value];
    assert(one.drop_first() =~= Seq::empty());
    no_marks();
    assert(composing(value, Seq::empty(), 0) == (value, Seq::<char>::empty()));
    assert(seq![value] + Seq::<char>::empty() =~= seq![value]);
}

/// Of starters that compose with no neighbour the last one is at hand, and those
/// before it are complete.
proof fn starters_taken(values: Seq<char>)
    requires
        values.len() > 0,
        forall|i: int| 0 <= i < values.len() ==> combining_class(#[trigger] values[i]) == 0,
        forall|i: int|
            0 < i < values.len() ==> canonical_composition(values[i - 1], #[trigger] values[i])
                is None,
    ensures
        taken(values) == (seq![values.last()], values.drop_last()),
    decreases values.len(),
{
    let front = values.drop_last();
    let last = values.last();
    assert(combining_class(values[values.len() - 1]) == 0);
    if front.len() == 0 {
        assert(taken(front) == (Seq::<char>::empty(), Seq::<char>::empty()));
        assert(Seq::<char>::empty().push(last) =~= seq![last]);
        assert(Seq::<char>::empty() + Seq::<char>::empty() =~= values.drop_last());
    } else {
        assert forall|i: int| 0 <= i < front.len() implies combining_class(#[trigger] front[i])
            == 0 by {
            assert(front[i] == values[i]);
        }
        assert forall|i: int| 0 < i < front.len() implies canonical_composition(
            front[i - 1],
            #[trigger] front[i],
        ) is None by {
            assert(front[i] == values[i]);
        }
        starters_taken(front);
        let before = front.last();
        assert(canonical_composition(values[values.len() - 2], values[values.len() - 1]) is None);
        assert(before == values[values.len() - 2]);
        starter_composed(before);
        assert(one_taken(seq![before], last) == (seq![last], seq![before]));
        assert(front.drop_last() + seq![before] =~= front);
    }
}

/// A text of characters that neither decompose nor compose with a neighbour is
/// its own normalization form C: nothing is lost, added or moved.
pub proof fn inert_text_stays(text: Seq<char>)
    requires
        forall|i: int| 0 <= i < text.len() ==> inert(#[trigger] text[i]),
        forall|i: int|
            0 < i < text.len() ==> canonical_composition(text[i - 1], #[trigger] text[i]) is None,
    ensures
        nfc(text) == text,
{
    assert forall|i: int| 0 <= i < text.len() implies canonical_decomposition(#[trigger] text[i])
        == seq![text[i]] by {
        assert(inert(text[i]));
    }
    assert forall|i: int| 0 <= i < text.len() implies combining_class(#[trigger] text[i]) == 0 by {
        assert(inert(text[i]));
    }
    inert_decompositions(text);
    if text.len() > 0 {
        starters_taken(text);
        starter_composed(text.last());
        assert(text.drop_last() + seq![text.last()] =~= text);
    } else {
        assert(nfc(text) =~= text);
    }
}

/// Marks of different classes, in either order, are ordered alike.
proof fn classes_commute(before: Seq<char>, one: char, two: char, after: Seq<char>, least: int)
    requires
        combining_class(one) != combining_class(two),
        0 <= least <= 256,
    ensures
        by_class(before + seq![one, two] + after, least) == by_class(
            before + seq![two, one] + after,
            least,
        ),
    decreases 256 - least,
{
    if least < 256 {
        classes_commute(before, one, two, after, least + 1);
        let pred = |value: char| combining_class(value) == least;
        filter_joins(before + seq![one, two], after, pred);
        filter_joins(before + seq![two, one], after, pred);
        filter_joins(before, seq![one, two], pred);
        filter_joins(before, seq![two, one], pred);
        reveal_with_fuel(Seq::filter, 3);
        let (left, right) = (seq![one, two], seq![two, one]);
        assert(left.drop_last() =~= seq![one]);
        assert(right.drop_last() =~= seq![two]);
        assert(seq![one].drop_last() =~= Seq::empty());
        assert(seq![two].drop_last() =~= Seq::empty());
        assert(left.filter(pred) =~= right.filter(pred));
    }
}

proof fn filter_joins(left: Seq<char>, right: Seq<char>, pred: spec_fn(char) -> bool)
    ensures
        (left + right).filter(pred) == left.filter(pred) + right.filter(pred),
    decreases right.len(),
{
    reveal(Seq::filter);
    if right.len() == 0 {
        assert(left + right =~= left);
        assert(left.filter(pred) + right.filter(pred) =~= left.filter(pred));
    } else {
        filter_joins(left, right.drop_last(), pred);
        assert((left + right).drop_last() =~= left + right.drop_last());
        assert((left + right).last() == right.last());
        assert((left + right).filter(pred) =~= left.filter(pred) + right.filter(pred));
    }
}

/// Whether sequences differ by the order of two neighbouring marks of different
/// classes.
pub open spec fn marks_swapped(
    left: Seq<char>,
    right: Seq<char>,
    before: Seq<char>,
    one: char,
    two: char,
    after: Seq<char>,
) -> bool {
    &&& combining_class(one) != 0
    &&& combining_class(two) != 0
    &&& combining_class(one) != combining_class(two)
    &&& left == before + seq![one, two] + after
    &&& right == before + seq![two, one] + after
}

/// Sequences that differ by the order of marks alone are composed alike.
proof fn swapped_composed(
    left: Seq<char>,
    right: Seq<char>,
    before: Seq<char>,
    one: char,
    two: char,
    after: Seq<char>,
)
    requires
        marks_swapped(left, right, before, one, two, after),
    ensures
        composed(left) == composed(right),
{
    if before.len() > 0 && combining_class(before[0]) == 0 {
        let rest = before.drop_first();
        assert(left[0] == before[0] && right[0] == before[0]);
        assert(left.drop_first() =~= rest + seq![one, two] + after);
        assert(right.drop_first() =~= rest + seq![two, one] + after);
        classes_commute(rest, one, two, after, 0);
    } else {
        if before.len() > 0 {
            assert(left[0] == before[0] && right[0] == before[0]);
        } else {
            assert(left[0] == one && right[0] == two);
        }
        classes_commute(before, one, two, after, 0);
    }
}

/// Where decomposed texts differ by the order of marks, either the sequences at
/// hand do, or all is taken alike.
proof fn swapped_taken(before: Seq<char>, one: char, two: char, after: Seq<char>)
    requires
        combining_class(one) != 0,
        combining_class(two) != 0,
        combining_class(one) != combining_class(two),
    ensures
        ({
            let left = taken(before + seq![one, two] + after);
            let right = taken(before + seq![two, one] + after);
            left.1 == right.1 && (left.0 == right.0 || exists|front: Seq<char>, back: Seq<char>|
                #[trigger] marks_swapped(left.0, right.0, front, one, two, back))
        }),
    decreases after.len(),
{
    let left = before + seq![one, two] + after;
    let right = before + seq![two, one] + after;
    if after.len() == 0 {
        let (pending, done) = taken(before);
        let (first, second) = (before.push(one), before.push(two));
        assert(left =~= first.push(two));
        assert(right =~= second.push(one));
        assert(first.drop_last() =~= before);
        assert(second.drop_last() =~= before);
        assert(left.drop_last() =~= first);
        assert(right.drop_last() =~= second);
        assert(taken(first) == (pending.push(one), done + Seq::<char>::empty()));
        assert(taken(second) == (pending.push(two), done + Seq::<char>::empty()));
        assert(done + Seq::<char>::empty() =~= done);
        assert(taken(left).0 =~= pending + seq![one, two] + Seq::<char>::empty());
        assert(taken(right).0 =~= pending + seq![two, one] + Seq::<char>::empty());
        assert(marks_swapped(
            taken(left).0,
            taken(right).0,
            pending,
            one,
            two,
            Seq::<char>::empty(),
        ));
    } else {
        let last = after.last();
        swapped_taken(before, one, two, after.drop_last());
        let (front_left, front_right) = (
            before + seq![one, two] + after.drop_last(),
            before + seq![two, one] + after.drop_last(),
        );
        assert(left.drop_last() =~= front_left);
        assert(right.drop_last() =~= front_right);
        assert(left.last() == last && right.last() == last);
        let (pending, other) = (taken(front_left).0, taken(front_right).0);
        if pending != other {
            let (front, back) = choose|front: Seq<char>, back: Seq<char>| #[trigger]
                marks_swapped(pending, other, front, one, two, back);
            swapped_composed(pending, other, front, one, two, back);
            assert(pending.len() == other.len());
            assert(pending.len() > 0);
            if combining_class(last) != 0 {
                assert(pending.push(last) =~= front + seq![one, two] + back.push(last));
                assert(other.push(last) =~= front + seq![two, one] + back.push(last));
                assert(marks_swapped(
                    pending.push(last),
                    other.push(last),
                    front,
                    one,
                    two,
                    back.push(last),
                ));
            }
        }
    }
}

/// Canonically equivalent texts are one: where the decompositions of two texts
/// differ by the order of two neighbouring marks of different classes, both
/// have the same normalization form C.
pub proof fn mark_order_does_not_matter(
    text: Seq<char>,
    other: Seq<char>,
    before: Seq<char>,
    one: char,
    two: char,
    after: Seq<char>,
)
    requires
        marks_swapped(decompositions(text), decompositions(other), before, one, two, after),
    ensures
        nfc(text) == nfc(other),
{
    swapped_taken(before, one, two, after);
    let (left, right) = (taken(decompositions(text)).0, taken(decompositions(other)).0);
    if left != right {
        let (front, back) = choose|front: Seq<char>, back: Seq<char>| #[trigger]
            marks_swapped(left, right, front, one, two, back);
        swapped_composed(left, right, front, one, two, back);
    }
}

/// A decomposed spelling and a composed one are one: texts with the same
/// canonical decomposition have the same normalization form C.
pub proof fn spelling_does_not_matter(text: Seq<char>, other: Seq<char>)
    requires
        decompositions(text) == decompositions(other),
    ensures
        nfc(text) == nfc(other),
{
}

/// Whether marks stand by increasing class.
pub open spec fn by_rank(marks: Seq<char>) -> bool {
    forall|i: int, j: int|
        0 <= i < j < marks.len() ==> combining_class(#[trigger] marks[i]) <= combining_class(
            #[trigger] marks[j],
        )
}

/// The marks of a class.
pub open spec fn of_class(marks: Seq<char>, class: int) -> Seq<char> {
    marks.filter(|value: char| combining_class(value) == class)
}

/// What is kept of a class is of that class alone.
proof fn class_kept(marks: Seq<char>, class: int, other: int)
    ensures
        forall|i: int|
            0 <= i < of_class(marks, class).len() ==> combining_class(
                #[trigger] of_class(marks, class)[i],
            ) == class,
        of_class(of_class(marks, class), other) == if other == class {
            of_class(marks, class)
        } else {
            Seq::empty()
        },
    decreases marks.len(),
{
    reveal(Seq::filter);
    let pred = |value: char| combining_class(value) == class;
    let wanted = |value: char| combining_class(value) == other;
    if marks.len() > 0 {
        class_kept(marks.drop_last(), class, other);
        let rest = of_class(marks.drop_last(), class);
        if pred(marks.last()) {
            assert(of_class(marks, class) == rest.push(marks.last()));
            assert(rest.push(marks.last()).drop_last() =~= rest);
        }
    }
}

/// Canonical order keeps the marks of each class from a least one on, in their
/// order, and puts classes in order.
proof fn ordered_from(marks: Seq<char>, least: int, class: int)
    requires
        0 <= least <= 256,
        0 <= class <= 255,
    ensures
        of_class(by_class(marks, least), class) == if class >= least {
            of_class(marks, class)
        } else {
            Seq::empty()
        },
        by_rank(by_class(marks, least)),
        forall|i: int|
            0 <= i < by_class(marks, least).len() ==> combining_class(
                #[trigger] by_class(marks, least)[i],
            ) >= least,
    decreases 256 - least,
{
    reveal(Seq::filter);
    if least < 256 {
        ordered_from(marks, least + 1, class);
        class_kept(marks, least, class);
        let here = of_class(marks, least);
        let rest = by_class(marks, least + 1);
        let all = by_class(marks, least);
        assert(all == here + rest);
        filter_joins(here, rest, |value: char| combining_class(value) == class);
        assert(of_class(all, class) =~= if class >= least {
            of_class(marks, class)
        } else {
            Seq::empty()
        });
        assert forall|i: int| 0 <= i < all.len() implies combining_class(#[trigger] all[i])
            >= least by {
            if i < here.len() {
                assert(all[i] == here[i]);
            } else {
                assert(all[i] == rest[i - here.len()]);
            }
        }
        assert forall|i: int, j: int| 0 <= i < j < all.len() implies combining_class(
            #[trigger] all[i],
        ) <= combining_class(#[trigger] all[j]) by {
            if j < here.len() {
                assert(all[i] == here[i] && all[j] == here[j]);
            } else {
                assert(all[j] == rest[j - here.len()]);
                if i < here.len() {
                    assert(all[i] == here[i]);
                } else {
                    assert(all[i] == rest[i - here.len()]);
                }
            }
        }
    }
}

/// Canonical order loses no mark: those of each class are all there, in the
/// order in which they stood, and classes increase.
pub proof fn marks_are_ordered(marks: Seq<char>)
    ensures
        by_rank(by_class(marks, 0)),
        forall|class: int|
            0 <= class <= 255 ==> #[trigger] of_class(by_class(marks, 0), class) == of_class(
                marks,
                class,
            ),
{
    ordered_from(marks, 0, 0);
    assert forall|class: int| 0 <= class <= 255 implies #[trigger] of_class(
        by_class(marks, 0),
        class,
    ) == of_class(marks, class) by {
        ordered_from(marks, 0, class);
    }
}

/// Two marks by increasing class are in order.
proof fn pair_in_order(one: char, two: char)
    requires
        combining_class(one) <= combining_class(two),
    ensures
        by_class(seq![one, two], 0) == seq![one, two],
{
    pair_from(one, two, 0);
}

proof fn pair_from(one: char, two: char, least: int)
    requires
        combining_class(one) <= combining_class(two),
        0 <= least <= 256,
    ensures
        by_class(seq![one, two], least) == if least <= combining_class(one) {
            seq![one, two]
        } else if least <= combining_class(two) {
            seq![two]
        } else {
            Seq::empty()
        },
    decreases 256 - least,
{
    if least < 256 {
        pair_from(one, two, least + 1);
        reveal_with_fuel(Seq::filter, 3);
        let marks = seq![one, two];
        assert(marks.drop_last() =~= seq![one]);
        assert(seq![one].drop_last() =~= Seq::empty());
        let here = of_class(marks, least);
        let rest = by_class(marks, least + 1);
        assert(by_class(marks, least) == here + rest);
        assert(here + rest =~= if least <= combining_class(one) {
            seq![one, two]
        } else if least <= combining_class(two) {
            seq![two]
        } else {
            Seq::empty()
        });
    }
}

proof fn single_from(one: char, least: int)
    requires
        0 <= least <= 256,
    ensures
        by_class(seq![one], least) == if least <= combining_class(one) {
            seq![one]
        } else {
            Seq::empty()
        },
    decreases 256 - least,
{
    if least < 256 {
        single_from(one, least + 1);
        reveal_with_fuel(Seq::filter, 2);
        let marks = seq![one];
        assert(marks.drop_last() =~= Seq::empty());
        let here = of_class(marks, least);
        let rest = by_class(marks, least + 1);
        assert(by_class(marks, least) == here + rest);
        assert(here + rest =~= if least <= combining_class(one) {
            seq![one]
        } else {
            Seq::empty()
        });
    }
}

/// One character is composed.
proof fn single_composed(value: char)
    ensures
        composed(seq![value]) == seq![value],
{
    if combining_class(value) == 0 {
        starter_composed(value);
    } else {
        single_from(value, 0);
    }
}

/// A starter is at hand behind nothing.
proof fn starter_taken(first: char)
    requires
        combining_class(first) == 0,
    ensures
        taken(seq![first]) == (seq![first], Seq::<char>::empty()),
{
    let one = seq![first];
    assert(one.drop_last() =~= Seq::empty());
    assert(taken(one.drop_last()) == (Seq::<char>::empty(), Seq::<char>::empty()));
    assert(Seq::<char>::empty().push(first) =~= one);
    assert(taken(one).0 =~= one);
    assert(taken(one).1 =~= Seq::<char>::empty());
}

/// A starter and what follows it become the character that they compose to, a
/// mark and another starter alike.
pub proof fn neighbours_compose(first: char, second: char, joined: char)
    requires
        inert(first),
        canonical_decomposition(second) == seq![second],
        canonical_composition(first, second) == Some(joined),
    ensures
        nfc(seq![first, second]) == seq![joined],
{
    let text = seq![first, second];
    assert forall|i: int| 0 <= i < text.len() implies canonical_decomposition(#[trigger] text[i])
        == seq![text[i]] by {}
    inert_decompositions(text);
    assert(text.drop_last() =~= seq![first]);
    starter_taken(first);
    starter_composed(first);
    if combining_class(second) == 0 {
        single_composed(joined);
        assert(taken(text).0 =~= seq![joined]);
        assert(taken(text).1 =~= Seq::<char>::empty());
    } else {
        assert(taken(text).0 =~= text);
        assert(taken(text).1 =~= Seq::<char>::empty());
        assert(text.drop_first() =~= seq![second]);
        single_from(second, 0);
        assert(seq![second].drop_first() =~= Seq::empty());
        assert(composing(joined, Seq::empty(), 0) == (joined, Seq::<char>::empty()));
        assert(composed(text) =~= seq![joined]);
    }
    assert(nfc(text) =~= seq![joined]);
}

/// A mark composes with the starter across a mark of a lower class, and not
/// across one of its own class.
pub proof fn composition_is_blocked(first: char, one: char, two: char, joined: char)
    requires
        inert(first),
        canonical_decomposition(one) == seq![one],
        canonical_decomposition(two) == seq![two],
        0 < combining_class(one) <= combining_class(two),
        canonical_composition(first, one) is None,
        canonical_composition(first, two) == Some(joined),
    ensures
        nfc(seq![first, one, two]) == if combining_class(one) < combining_class(two) {
            seq![joined, one]
        } else {
            seq![first, one, two]
        },
{
    let text = seq![first, one, two];
    assert forall|i: int| 0 <= i < text.len() implies canonical_decomposition(#[trigger] text[i])
        == seq![text[i]] by {}
    inert_decompositions(text);
    let pair = seq![first, one];
    assert(text.drop_last() =~= pair);
    assert(pair.drop_last() =~= seq![first]);
    starter_taken(first);
    assert(taken(pair).0 =~= pair);
    assert(taken(pair).1 =~= Seq::<char>::empty());
    assert(taken(text).0 =~= text);
    assert(taken(text).1 =~= Seq::<char>::empty());
    assert(text.drop_first() =~= seq![one, two]);
    pair_in_order(one, two);
    let rest = seq![two];
    assert(seq![one, two].drop_first() =~= rest);
    assert(rest.drop_first() =~= Seq::empty());
    let class = combining_class(one);
    assert(composing(joined, Seq::empty(), class) == (joined, Seq::<char>::empty()));
    assert(composing(first, Seq::empty(), combining_class(two)) == (first, Seq::<char>::empty()));
    if combining_class(one) < combining_class(two) {
        assert(composing(first, rest, class) == (joined, Seq::<char>::empty()));
        assert(composed(text) =~= seq![joined, one]);
        assert(nfc(text) =~= seq![joined, one]);
    } else {
        assert(composing(first, rest, class).0 == first);
        assert(composing(first, rest, class).1 =~= rest);
        assert(composed(text) =~= text);
        assert(nfc(text) =~= text);
    }
}

} // verus!
