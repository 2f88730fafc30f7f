use pin_core::budget::{BudgetError, MemoryBudget};
use pin_core::error::Error;
use pin_core::identity::{
    DocumentRef, Generation, HeapLayout, IdentityError, Incarnation, RelationGeneration, RootTid,
    SegmentId, VisibleTid,
};
use pin_core::memory::{copy_text, growth, release, reserve, vector, Work};

#[test]
fn failed_operations_are_atomic() {
    let mut budget = MemoryBudget::new(64);
    budget.charge_array::<u64>(8).unwrap();
    assert_eq!(budget.remaining(), 0);
    assert_eq!(budget.charge(1), Err(BudgetError::LimitExceeded));
    assert_eq!(budget.release(65), Err(BudgetError::InvalidRelease));
    assert_eq!(budget.used(), 64);
    budget.release(64).unwrap();
    assert_eq!(budget.used(), 0);
    assert_eq!(budget.peak(), 64);
}

#[test]
fn addition_and_multiplication_do_not_wrap() {
    let mut budget = MemoryBudget::new(usize::MAX);
    assert_eq!(budget.charge_array::<u64>(usize::MAX), Err(BudgetError::ArithmeticOverflow));
    budget.charge(usize::MAX).unwrap();
    assert_eq!(budget.charge(1), Err(BudgetError::ArithmeticOverflow));
    assert_eq!(budget.used(), usize::MAX);
}

#[test]
fn coordinate_boundaries() {
    let layout = HeapLayout::new(128).unwrap();
    assert_eq!(HeapLayout::new(0), Err(IdentityError::InvalidLayout));
    assert_eq!(HeapLayout::new(513), Err(IdentityError::InvalidLayout));
    assert_eq!(RootTid::new(0, 0, layout), Err(IdentityError::InvalidOffset));
    assert_eq!(RootTid::new(0, 129, layout), Err(IdentityError::InvalidOffset));
    assert_eq!(RootTid::new(u32::MAX, 1, layout), Err(IdentityError::InvalidBlock));
    for block in [0, 1, 255, 256, u32::MAX - 1] {
        for offset in 1..=layout.max_offset() {
            let tid = RootTid::new(block, offset, layout).unwrap();
            assert_eq!(tid.block(), block);
            assert_eq!(tid.offset(), offset);
            assert_eq!(tid.key(), (u64::from(block) << 16) | u64::from(offset));
        }
    }
}

#[test]
fn generations_do_not_wrap() {
    assert_eq!(Generation::new(0), Err(IdentityError::ZeroIdentifier));
    let last = Generation::new(u64::MAX).unwrap();
    assert_eq!(last.next(), Err(IdentityError::GenerationExhausted));
    assert_eq!(Generation::new(7).unwrap().next().unwrap().get(), 8);
}

#[test]
fn slot_reuse_and_rewrites_change_identity() {
    let layout = HeapLayout::new(128).unwrap();
    let relation = RelationGeneration::new(1, 2, 3, Generation::new(1).unwrap()).unwrap();
    let old = DocumentRef {
        relation,
        segment: SegmentId::new(1).unwrap(),
        incarnation: Incarnation::new(1).unwrap(),
        root: RootTid::new(42, 7, layout).unwrap(),
    };
    let replacement = DocumentRef {
        incarnation: Incarnation::new(2).unwrap(),
        ..old
    };
    assert_ne!(old, replacement);
    let rewritten = DocumentRef {
        relation: RelationGeneration::new(1, 2, 3, Generation::new(2).unwrap()).unwrap(),
        ..old
    };
    assert_ne!(old, rewritten);
    let visible = VisibleTid::new(42, 8, layout).unwrap();
    assert_eq!(old.root.offset(), 7);
    assert_eq!(visible.offset(), 8);
}

#[test]
fn scratch_release_returns_capacity_without_resetting_peak() {
    let mut budget = MemoryBudget::new(4096);
    let first: Vec<u64> = vector(16, &mut budget).unwrap();
    let second: Vec<u8> = vector(7, &mut budget).unwrap();
    let retained = second.capacity();
    let peak = budget.peak();
    release(first, &mut budget).unwrap();
    assert_eq!(budget.used(), retained);
    assert_eq!(budget.peak(), peak);
    release(second, &mut budget).unwrap();
    release(Vec::<u8>::new(), &mut budget).unwrap();
    assert_eq!(budget.used(), 0);
    assert_eq!(budget.peak(), peak);
}

#[test]
fn growth_doubles_where_the_budget_allows_it() {
    assert_eq!(growth(4, 4, 1, 100, 64, 8).unwrap(), Some(8));
    assert_eq!(growth(4, 4, 1, 100, 8, 8).unwrap(), Some(5));
    assert_eq!(growth(4, 4, 1, 6, 64, 8).unwrap(), Some(6));
    assert_eq!(growth(3, 4, 1, 6, 64, 8).unwrap(), None);
    assert_eq!(growth(4, 4, 1, 4, 64, 8), Err(Error::Limit("element count")));
    assert_eq!(
        growth(4, 4, 1, 100, 7, 8),
        Err(Error::Budget(BudgetError::LimitExceeded))
    );
}

#[test]
fn reservations_are_charged_and_bounded() {
    let mut budget = MemoryBudget::new(64);
    let mut values: Vec<u64> = Vec::new();
    reserve(&mut values, 3, 8, &mut budget).unwrap();
    assert!(budget.used() >= 24);
    assert_eq!(budget.used(), values.capacity() * 8);
    assert_eq!(
        reserve(&mut values, 9, 8, &mut budget),
        Err(Error::Limit("element count"))
    );
    assert!(values.is_empty());
    let copied = copy_text("caf\u{e9}", &mut budget).unwrap();
    assert_eq!(copied, "caf\u{e9}");
}

#[test]
fn search_work_is_spent_once() {
    let mut work = Work::new(3);
    work.charge(2).unwrap();
    assert_eq!(work.charge(2), Err(Error::Limit("search work")));
    work.charge(1).unwrap();
    assert_eq!(work.charge(1), Err(Error::Limit("search work")));
}
