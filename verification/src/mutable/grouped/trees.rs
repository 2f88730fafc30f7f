//! A catalog as a list: the entries below its root, in order, and how a search
//! finds each of them.

use crate::identity::{group_identity, SegmentId};
use crate::mutable::grouped::catalog::{child_of, lower, CursorModel};
use crate::mutable::page::grouped_model::{entry_at, entry_key, key_before, EntryModel};
use crate::mutable::page::model::Image;
use crate::mutable::page::{GroupSnapshot, PageKind, NO_BLOCK};
use crate::mutable::store::StoreModel;
use vstd::prelude::*;

verus! {

broadcast use group_identity;

/// The entries of a catalog node.
pub open spec fn entries_of(page: Image) -> Seq<EntryModel> {
    Seq::new(
        page.group_node_info()->Ok_0.1 as nat,
        |i: int| entry_at(page.node_entries(), i),
    )
}

/// The node of a segment that an entry of a given level leads to.
pub open spec fn child_page(model: StoreModel, id: SegmentId, entry: EntryModel, level: int) -> Option<
    Image,
> {
    match child_of(entry) {
        Err(_) => None,
        Ok(block) => match model.load(block, PageKind::Grouped) {
            Err(_) => None,
            Ok(page) => if page.group_node_info() matches Ok((below, count)) && below + 1 == level
                && count > 0 && page.group_identity()->Ok_0.0 == id && entry_key(
                page.node_entries(),
                0,
            ) == entry.key {
                Some(page)
            } else {
                None
            },
        },
    }
}

/// The leaf entries that the entries of a node lead to, unless a node is damaged.
pub open spec fn under(model: StoreModel, id: SegmentId, entries: Seq<EntryModel>, level: int) -> Option<
    Seq<EntryModel>,
>
    decreases level, entries.len(),
{
    if level <= 0 {
        Some(entries)
    } else if entries.len() == 0 {
        Some(Seq::empty())
    } else {
        match child_page(model, id, entries.last(), level) {
            None => None,
            Some(page) => match under(model, id, entries.drop_last(), level) {
                None => None,
                Some(front) => match under(model, id, entries_of(page), level - 1) {
                    None => None,
                    Some(back) => Some(front + back),
                },
            },
        }
    }
}

/// The leaf entries of the catalog of a segment, unless a node is damaged.
pub open spec fn catalog_list(model: StoreModel, id: SegmentId, root: u32) -> Option<
    Seq<EntryModel>,
> {
    if root == NO_BLOCK {
        Some(Seq::empty())
    } else {
        match model.load(root, PageKind::Grouped) {
            Err(_) => None,
            Ok(page) => if page.group_node_info() matches Ok((level, count)) && count > 0
                && page.group_identity()->Ok_0.0 == id {
                under(model, id, entries_of(page), page.group_node_info()->Ok_0.0 as int)
            } else {
                None
            },
        }
    }
}

/// Whether the keys of a list ascend.
pub open spec fn list_ascends(list: Seq<EntryModel>) -> bool {
    forall|i: int, j: int|
        0 <= i < j < list.len() ==> key_before((#[trigger] list[i]).key, (#[trigger] list[j]).key)
}

/// The first entry below a node has the key of its first entry.
pub(crate) proof fn first_under(model: StoreModel, id: SegmentId, entries: Seq<EntryModel>, level: int)
    requires
        under(model, id, entries, level) is Some,
        entries.len() > 0,
        level >= 0,
    ensures
        under(model, id, entries, level)->Some_0.len() > 0,
        under(model, id, entries, level)->Some_0[0].key == entries[0].key,
    decreases level, entries.len(),
{
    if level > 0 {
        let page = child_page(model, id, entries.last(), level)->Some_0;
        first_under(model, id, entries_of(page), level - 1);
        if entries.len() > 1 {
            first_under(model, id, entries.drop_last(), level);
        } else {
            assert(entries.drop_last() =~= Seq::empty());
        }
    }
}

/// The list below a node parts at each of its entries.
proof fn under_parts(
    model: StoreModel,
    id: SegmentId,
    entries: Seq<EntryModel>,
    level: int,
    slot: int,
) -> (parts: (Seq<EntryModel>, Seq<EntryModel>, Seq<EntryModel>))
    requires
        under(model, id, entries, level) is Some,
        level > 0,
        0 <= slot < entries.len(),
    ensures
        child_page(model, id, entries[slot], level) matches Some(page) && under(
            model,
            id,
            entries_of(page),
            level - 1,
        ) == Some(parts.1),
        under(model, id, entries.take(slot), level) == Some(parts.0),
        under(model, id, entries, level)->Some_0 == parts.0 + parts.1 + parts.2,
        slot + 1 < entries.len() ==> parts.2.len() > 0 && parts.2[0].key == entries[slot + 1].key,
        slot + 1 == entries.len() ==> parts.2.len() == 0,
        parts.1.len() > 0,
        parts.1[0].key == entries[slot].key,
    decreases entries.len(),
{
    let last = entries.len() - 1;
    let page = child_page(model, id, entries.last(), level)->Some_0;
    let less = entries.drop_last();
    let front = under(model, id, less, level)->Some_0;
    let back = under(model, id, entries_of(page), level - 1)->Some_0;
    first_under(model, id, entries_of(page), level - 1);
    if slot == last {
        assert(entries.take(slot) =~= less);
        assert(front + back + Seq::<EntryModel>::empty() =~= front + back);
        (front, back, Seq::empty())
    } else {
        let (before, middle, behind) = under_parts(model, id, less, level, slot);
        assert(less.take(slot) =~= entries.take(slot));
        assert(less[slot] == entries[slot]);
        let rest = behind + back;
        assert(before + middle + rest =~= front + back);
        if slot + 1 < last {
            assert(less[slot + 1] == entries[slot + 1]);
            assert(rest[0] == behind[0]);
        } else {
            assert(rest =~= back);
        }
        (before, middle, rest)
    }
}

/// Where an entry of the list stands below a node: below which entry.
proof fn place_under(
    model: StoreModel,
    id: SegmentId,
    entries: Seq<EntryModel>,
    level: int,
    index: int,
) -> (slot: int)
    requires
        under(model, id, entries, level) is Some,
        level > 0,
        0 <= index < under(model, id, entries, level)->Some_0.len(),
    ensures
        0 <= slot < entries.len(),
        under(model, id, entries.take(slot), level) matches Some(front) && (child_page(
            model,
            id,
            entries[slot],
            level,
        ) matches Some(page) && (under(model, id, entries_of(page), level - 1) matches Some(middle)
            && front.len() <= index < front.len() + middle.len())),
    decreases entries.len(),
{
    let less = entries.drop_last();
    let front = under(model, id, less, level)->Some_0;
    assert(entries.len() > 0);
    if index >= front.len() {
        assert(entries.take(entries.len() - 1) =~= less);
        entries.len() - 1
    } else {
        let slot = place_under(model, id, less, level, index);
        assert(less.take(slot) =~= entries.take(slot));
        assert(less[slot] == entries[slot]);
        slot
    }
}

/// How many leading entries sort before a key, where it is known.
proof fn lower_found(entries: Seq<u8>, count: int, key: Seq<u64>, index: int, place: int)
    requires
        0 <= index <= place <= count,
        forall|i: int| index <= i < place ==> key_before(#[trigger] entry_key(entries, i), key),
        place < count ==> !key_before(entry_key(entries, place), key),
    ensures
        lower(entries, count, key, index) == place,
    decreases place - index,
{
    if index < place {
        assert(key_before(entry_key(entries, index), key));
        lower_found(entries, count, key, index + 1, place);
    }
}

/// The keys of a node ascend where the list below it does.
proof fn keys_of_node(
    model: StoreModel,
    id: SegmentId,
    entries: Seq<EntryModel>,
    level: int,
    i: int,
    j: int,
)
    requires
        under(model, id, entries, level) is Some,
        list_ascends(under(model, id, entries, level)->Some_0),
        level >= 0,
        0 <= i < j < entries.len(),
    ensures
        key_before(entries[i].key, entries[j].key),
{
    let list = under(model, id, entries, level)->Some_0;
    if level > 0 {
        let (front, middle, behind) = under_parts(model, id, entries, level, j);
        first_under(model, id, entries.take(j), level);
        let (before, mine, rest) = under_parts(model, id, entries, level, i);
        let at = before.len() as int;
        let to = front.len() as int;
        assert(list[at] == mine[0]);
        assert(list[to] == middle[0]);
        let (inner, same, tail) = under_parts(model, id, entries.take(j), level, i);
        assert(entries.take(j).take(i) =~= entries.take(i));
        assert(at < to);
    }
}

/// Whether all keys of a list stay before a bound.
pub open spec fn stays_before(list: Seq<EntryModel>, bound: Option<Seq<u64>>) -> bool {
    bound matches Some(key) ==> forall|i: int|
        0 <= i < list.len() ==> key_before((#[trigger] list[i]).key, key)
}

/// The key of an entry of a node is that of an entry below it.
pub(crate) proof fn key_listed(
    model: StoreModel,
    id: SegmentId,
    entries: Seq<EntryModel>,
    level: int,
    slot: int,
) -> (place: int)
    requires
        under(model, id, entries, level) is Some,
        level >= 0,
        0 <= slot < entries.len(),
    ensures
        0 <= place < under(model, id, entries, level)->Some_0.len(),
        under(model, id, entries, level)->Some_0[place].key == entries[slot].key,
{
    if level == 0 {
        slot
    } else {
        let list = under(model, id, entries, level)->Some_0;
        let (front, middle, behind) = under_parts(model, id, entries, level, slot);
        assert(list[front.len() as int] == middle[0]);
        front.len() as int
    }
}

/// The list below entries parts where they do.
pub(crate) proof fn under_split(
    model: StoreModel,
    id: SegmentId,
    entries: Seq<EntryModel>,
    level: int,
    at: int,
)
    requires
        under(model, id, entries, level) is Some,
        level >= 0,
        0 <= at <= entries.len(),
    ensures
        under(model, id, entries.take(at), level) is Some,
        under(model, id, entries.skip(at), level) is Some,
        under(model, id, entries, level)->Some_0 == under(
            model,
            id,
            entries.take(at),
            level,
        )->Some_0 + under(model, id, entries.skip(at), level)->Some_0,
    decreases entries.len(),
{
    let list = under(model, id, entries, level)->Some_0;
    if level == 0 {
        assert(entries =~= entries.take(at) + entries.skip(at));
    } else if at == entries.len() {
        assert(entries.take(at) =~= entries);
        assert(entries.skip(at) =~= Seq::empty());
        assert(list + Seq::<EntryModel>::empty() =~= list);
    } else {
        let less = entries.drop_last();
        under_split(model, id, less, level, at);
        assert(less.take(at) =~= entries.take(at));
        assert(entries.skip(at).drop_last() =~= less.skip(at));
        assert(entries.skip(at).last() == entries.last());
        let page = child_page(model, id, entries.last(), level)->Some_0;
        let back = under(model, id, entries_of(page), level - 1)->Some_0;
        let front = under(model, id, less.take(at), level)->Some_0;
        let middle = under(model, id, less.skip(at), level)->Some_0;
        assert((front + middle) + back =~= front + (middle + back));
    }
}

/// The leaf entries behind a path, whose last node has the given level.
pub open spec fn ahead(
    model: StoreModel,
    id: SegmentId,
    parents: Seq<(u32, u16)>,
    level: int,
) -> Option<Seq<EntryModel>>
    decreases parents.len(),
{
    if parents.len() == 0 {
        Some(Seq::empty())
    } else {
        let (block, slot) = parents.last();
        match model.load(block, PageKind::Grouped) {
            Err(_) => None,
            Ok(page) => if page.group_node_info() matches Ok((at, count)) && at == level && slot
                < count && page.group_identity()->Ok_0.0 == id {
                match under(model, id, entries_of(page).skip(slot + 1), level) {
                    None => None,
                    Some(front) => match ahead(model, id, parents.drop_last(), level + 1) {
                        None => None,
                        Some(back) => Some(front + back),
                    },
                }
            } else {
                None
            },
        }
    }
}

/// Whether a cursor stands on an entry of a leaf.
pub open spec fn stands(cursor: CursorModel) -> bool {
    cursor.leaf matches Some(leaf) && (leaf.group_node_info() matches Ok(info) && cursor.slot
        < info.1)
}

/// The leaf entries from the place of a cursor on.
pub open spec fn rest(model: StoreModel, id: SegmentId, cursor: CursorModel) -> Option<
    Seq<EntryModel>,
> {
    match cursor.leaf {
        None => Some(Seq::empty()),
        Some(page) => match ahead(model, id, cursor.parents, 1) {
            None => None,
            Some(back) => Some(entries_of(page).skip(cursor.slot as int) + back),
        },
    }
}

/// Going down finds the entry of the list that has the key.
#[verifier::rlimit(60)]
#[verifier::spinoff_prover]
proof fn descending_finds(
    cursor: CursorModel,
    model: StoreModel,
    id: SegmentId,
    key: Seq<u64>,
    block: u32,
    expected: Option<u8>,
    least: Option<Seq<u64>>,
    bound: Option<Seq<u64>>,
    index: int,
)
    requires
        model.load(block, PageKind::Grouped) is Ok,
        ({
            let page = model.load(block, PageKind::Grouped)->Ok_0;
            &&& page.group_node_info() matches Ok((level, count)) && count > 0 && level
                + cursor.parents.len() <= 8 && (expected matches Some(wanted) ==> level == wanted)
                && (under(model, id, entries_of(page), level as int) matches Some(list)
                && list_ascends(list) && stays_before(list, bound) && 0 <= index < list.len()
                && list[index].key == key)
            &&& page.group_identity()->Ok_0.0 == id
            &&& least matches Some(key) ==> entry_key(page.node_entries(), 0) == key
            &&& ahead(
                model,
                id,
                cursor.parents,
                page.group_node_info()->Ok_0.0 + 1,
            ) is Some
        }),
    ensures
        ({
            let page = model.load(block, PageKind::Grouped)->Ok_0;
            let level = page.group_node_info()->Ok_0.0 as int;
            let list = under(model, id, entries_of(page), level)->Some_0;
            let behind = ahead(model, id, cursor.parents, level + 1)->Some_0;
            cursor.descended(model, id, key, block, expected, least, bound) matches Ok(met)
                && met.entry == Some(list[index]) && rest(model, id, met.place) == Some(
                list.skip(index) + behind,
            ) && stands(met.place)
        }),
    decreases model.load(block, PageKind::Grouped)->Ok_0.group_node_info()->Ok_0.0,
{
    let page = model.load(block, PageKind::Grouped)->Ok_0;
    let (level, count) = page.group_node_info()->Ok_0;
    let bytes = page.node_entries();
    let entries = entries_of(page);
    let list = under(model, id, entries, level as int)->Some_0;
    assert(entries.last().key == entry_key(bytes, count - 1));
    let end = key_listed(model, id, entries, level as int, count - 1);
    let slot = if level == 0 {
        index
    } else {
        place_under(model, id, entries, level as int, index)
    };
    assert forall|i: int| 0 <= i < slot implies key_before(
        #[trigger] entry_key(bytes, i),
        entries[slot].key,
    ) by {
        keys_of_node(model, id, entries, level as int, i, slot);
        assert(entries[i].key == entry_key(bytes, i));
    }
    if level == 0 {
        assert(entries[slot].key == entry_key(bytes, slot));
        lower_found(bytes, count as int, key, 0, slot);
        assert(slot as u16 == slot);
    } else {
        let (front, middle, behind) = under_parts(model, id, entries, level as int, slot);
        let inner = index - front.len();
        assert(list[index] == middle[inner]);
        assert(list[front.len() as int] == middle[0]);
        assert(entries[slot].key == entry_key(bytes, slot));
        let exact = entries[slot].key == key;
        if inner > 0 {
            assert(key_before(list[front.len() as int].key, list[index].key));
        }
        if slot + 1 < count {
            let next = front.len() + middle.len();
            assert(list[next as int] == behind[0]);
            assert(key_before(list[index].key, list[next as int].key));
            assert(entries[slot + 1].key == entry_key(bytes, slot + 1));
        }
        if inner == 0 {
            lower_found(bytes, count as int, key, 0, slot);
        } else {
            assert forall|i: int| 0 <= i < slot + 1 implies key_before(
                #[trigger] entry_key(bytes, i),
                key,
            ) by {
                if i < slot {
                    assert(key_before(entry_key(bytes, i), entries[slot].key));
                }
            }
            lower_found(bytes, count as int, key, 0, slot + 1);
        }
        let child = child_page(model, id, entries[slot], level as int)->Some_0;
        let next = child_of(entries[slot])->Ok_0;
        let below = if slot + 1 < count {
            Some(entry_key(bytes, slot + 1))
        } else {
            bound
        };
        assert(list_ascends(middle)) by {
            assert forall|i: int, j: int| 0 <= i < j < middle.len() implies key_before(
                (#[trigger] middle[i]).key,
                (#[trigger] middle[j]).key,
            ) by {
                assert(list[front.len() + i] == middle[i]);
                assert(list[front.len() + j] == middle[j]);
            }
        }
        assert(stays_before(middle, below)) by {
            if let Some(limit) = below {
                assert forall|i: int| 0 <= i < middle.len() implies key_before(
                    (#[trigger] middle[i]).key,
                    limit,
                ) by {
                    assert(list[front.len() + i] == middle[i]);
                    if slot + 1 < count {
                        assert(key_before(
                            list[front.len() + i].key,
                            list[(front.len() + middle.len()) as int].key,
                        ));
                    }
                }
            }
        }
        let deeper = CursorModel { parents: cursor.parents.push((block, slot as u16)), ..cursor };
        let tail = ahead(model, id, cursor.parents, level + 1)->Some_0;
        under_split(model, id, entries, level as int, slot + 1);
        assert(entries.take(slot + 1).drop_last() =~= entries.take(slot));
        assert(entries.take(slot + 1).last() == entries[slot]);
        assert(under(model, id, entries.take(slot + 1), level as int) == Some(front + middle));
        let after = under(model, id, entries.skip(slot + 1), level as int)->Some_0;
        assert(after =~= behind) by {
            assert((front + middle) + after == (front + middle) + behind);
            assert forall|i: int| 0 <= i < after.len() implies after[i] == behind[i] by {
                assert(list[front.len() + middle.len() + i] == after[i]);
                assert(list[front.len() + middle.len() + i] == behind[i]);
            }
        }
        assert(deeper.parents.last() == (block, slot as u16));
        assert(deeper.parents.drop_last() =~= cursor.parents);
        assert(slot as u16 == slot);
        assert(ahead(model, id, deeper.parents, level as int) == Some(behind + tail));
        assert(middle.skip(inner) + (behind + tail) =~= list.skip(index) + tail);
        descending_finds(
            deeper,
            model,
            id,
            key,
            next,
            Some((level - 1) as u8),
            Some(entry_key(bytes, slot)),
            below,
            inner,
        );
    }
}

/// A search finds every entry of a catalog by its key, and leaves the cursor
/// before that entry and all behind it.
pub proof fn searches_find_entries(
    cursor: CursorModel,
    model: StoreModel,
    snapshot: GroupSnapshot,
    index: int,
)
    requires
        cursor.leaf is None,
        catalog_list(model, snapshot.id, snapshot.root) matches Some(list) && list_ascends(list)
            && 0 <= index < list.len(),
    ensures
        ({
            let entry = catalog_list(model, snapshot.id, snapshot.root)->Some_0[index];
            cursor.sought(model, snapshot, entry.key) matches Ok(met) && met.entry == Some(entry)
                && rest(model, snapshot.id, met.place) == Some(
                catalog_list(model, snapshot.id, snapshot.root)->Some_0.skip(index),
            ) && stands(met.place)
        }),
{
    let list = catalog_list(model, snapshot.id, snapshot.root)->Some_0;
    assert(list.skip(index) + Seq::<EntryModel>::empty() =~= list.skip(index));
    let entry = catalog_list(model, snapshot.id, snapshot.root)->Some_0[index];
    let start = CursorModel { leaf: None, slot: cursor.slot, parents: Seq::empty() };
    descending_finds(
        start,
        model,
        snapshot.id,
        entry.key,
        snapshot.root,
        None,
        None,
        None,
        index,
    );
}

/// Going down from an entry leads to the first leaf entry below it.
#[verifier::rlimit(60)]
#[verifier::spinoff_prover]
proof fn going_down(
    cursor: CursorModel,
    model: StoreModel,
    id: SegmentId,
    entry: EntryModel,
    level: int,
    bound: Option<Seq<u64>>,
)
    requires
        level > 0,
        level + cursor.parents.len() <= 9,
        under(model, id, seq![entry], level) matches Some(list) && stays_before(list, bound),
        ahead(model, id, cursor.parents, level) is Some,
    ensures
        ({
            let list = under(model, id, seq![entry], level)->Some_0;
            let behind = ahead(model, id, cursor.parents, level)->Some_0;
            &&& list.len() > 0
            &&& cursor.down(model, id, entry, level, bound) matches Ok(met) && met.entry == Some(
                list[0],
            ) && rest(model, id, met.place) == Some(list + behind) && stands(met.place)
        }),
    decreases level,
{
    let one = seq![entry];
    let list = under(model, id, one, level)->Some_0;
    let behind = ahead(model, id, cursor.parents, level)->Some_0;
    let page = child_page(model, id, entry, level)->Some_0;
    let block = child_of(entry)->Ok_0;
    let entries = entries_of(page);
    assert(one.last() == entry);
    assert(one.drop_last() =~= Seq::empty());
    let below = under(model, id, entries, level - 1)->Some_0;
    assert(under(model, id, one.drop_last(), level) == Some(Seq::<EntryModel>::empty()));
    assert(Seq::<EntryModel>::empty() + below =~= below);
    assert(list == below);
    first_under(model, id, entries, level - 1);
    let count = page.group_node_info()->Ok_0.1;
    let end = key_listed(model, id, entries, level - 1, count - 1);
    assert(entries[count - 1].key == entry_key(page.node_entries(), count - 1));
    let first = entry_at(page.node_entries(), 0);
    assert(entries[0] == first);
    if level == 1 {
        assert(entries.skip(0) =~= entries);
    } else {
        let deeper = CursorModel { parents: cursor.parents.push((block, 0)), ..cursor };
        under_split(model, id, entries, level - 1, 1);
        assert(entries.take(1) =~= seq![first]);
        let mine = under(model, id, seq![first], level - 1)->Some_0;
        let others = under(model, id, entries.skip(1), level - 1)->Some_0;
        assert(deeper.parents.last() == (block, 0u16));
        assert(deeper.parents.drop_last() =~= cursor.parents);
        assert(ahead(model, id, deeper.parents, level - 1) == Some(others + behind));
        assert(stays_before(mine, bound)) by {
            if let Some(limit) = bound {
                assert forall|i: int| 0 <= i < mine.len() implies key_before(
                    (#[trigger] mine[i]).key,
                    limit,
                ) by {
                    assert(list[i] == mine[i]);
                }
            }
        }
        going_down(deeper, model, id, first, level - 1, bound);
        assert(mine + (others + behind) =~= list + behind);
        assert(list[0] == mine[0]);
    }
}

/// Climbing leads to the first leaf entry behind a path.
#[verifier::rlimit(60)]
#[verifier::spinoff_prover]
proof fn climbing(cursor: CursorModel, model: StoreModel, id: SegmentId, level: int)
    requires
        level > 0,
        level + cursor.parents.len() <= 9,
        ahead(model, id, cursor.parents, level) matches Some(list) && list_ascends(list),
    ensures
        ({
            let list = ahead(model, id, cursor.parents, level)->Some_0;
            cursor.climbed(model, id) matches Ok(met) && if list.len() == 0 {
                met.entry is None && met.place.leaf is None
            } else {
                met.entry == Some(list[0]) && rest(model, id, met.place) == Some(list)
                    && stands(met.place)
            }
        }),
    decreases cursor.parents.len(),
{
    if cursor.parents.len() > 0 {
        let list = ahead(model, id, cursor.parents, level)->Some_0;
        let (block, slot) = cursor.parents.last();
        let page = model.load(block, PageKind::Grouped)->Ok_0;
        let count = page.group_node_info()->Ok_0.1;
        let entries = entries_of(page);
        let others = entries.skip(slot + 1);
        let front = under(model, id, others, level)->Some_0;
        let back = ahead(model, id, cursor.parents.drop_last(), level + 1)->Some_0;
        if slot + 1 >= count {
            assert(others =~= Seq::empty());
            assert(front + back =~= back);
            let higher = CursorModel { parents: cursor.parents.drop_last(), ..cursor };
            climbing(higher, model, id, level + 1);
        } else {
            let next = entry_at(page.node_entries(), slot + 1);
            assert(others[0] == next);
            under_split(model, id, others, level, 1);
            assert(others.take(1) =~= seq![next]);
            let mine = under(model, id, seq![next], level)->Some_0;
            let more = under(model, id, others.skip(1), level)->Some_0;
            assert(others.skip(1) =~= entries.skip(slot + 2));
            let bound = if slot + 2 < count {
                Some(entry_key(page.node_entries(), slot + 2))
            } else {
                None
            };
            let parents = cursor.parents.drop_last().push((block, (slot + 1) as u16));
            let moved = CursorModel { parents, ..cursor };
            assert(parents.last() == (block, (slot + 1) as u16));
            assert(parents.drop_last() =~= cursor.parents.drop_last());
            assert((slot + 1) as u16 == slot + 1);
            assert(ahead(model, id, parents, level) == Some(more + back));
            assert(stays_before(mine, bound)) by {
                if let Some(limit) = bound {
                    assert(others.skip(1)[0] == entries[slot + 2]);
                    first_under(model, id, others.skip(1), level);
                    assert(more[0].key == limit);
                    assert forall|i: int| 0 <= i < mine.len() implies key_before(
                        (#[trigger] mine[i]).key,
                        limit,
                    ) by {
                        assert(list[i] == mine[i]);
                        assert(list[mine.len() as int] == more[0]);
                    }
                }
            }
            going_down(moved, model, id, next, level, bound);
            assert(mine + (more + back) =~= list);
        }
    }
}

/// A cursor that stands before entries of a catalog steps to the next of them, and
/// ends behind the last one.
pub proof fn steps_list_entries(cursor: CursorModel, model: StoreModel, id: SegmentId)
    requires
        cursor.parents.len() <= 8,
        stands(cursor),
        rest(model, id, cursor) matches Some(list) && list_ascends(list),
    ensures
        ({
            let list = rest(model, id, cursor)->Some_0;
            &&& list.len() > 0
            &&& cursor.current(model, id) matches Ok(here) && here.entry == Some(list[0])
            &&& cursor.advanced(model, id) matches Ok(met) && if list.len() == 1 {
                met.entry is None
            } else {
                met.entry == Some(list[1]) && rest(model, id, met.place) == Some(list.skip(1))
                    && stands(met.place)
            }
        }),
{
    let list = rest(model, id, cursor)->Some_0;
    let page = cursor.leaf->Some_0;
    let count = page.group_node_info()->Ok_0.1;
    let entries = entries_of(page);
    let back = ahead(model, id, cursor.parents, 1)->Some_0;
    let slot = cursor.slot as int;
    assert(entries.skip(slot)[0] == entries[slot]);
    assert(list[0] == entries[slot]);
    let next = CursorModel { slot: (cursor.slot + 1) as u16, ..cursor };
    assert(next.slot == slot + 1);
    assert(list.skip(1) =~= entries.skip(slot + 1) + back);
    if slot + 1 < count {
        assert(entries.skip(slot + 1)[0] == entries[slot + 1]);
        assert(list[1] == list.skip(1)[0]);
    } else {
        assert(entries.skip(slot + 1) =~= Seq::empty());
        assert(list.skip(1) =~= back);
        assert forall|i: int, j: int| 0 <= i < j < back.len() implies key_before(
            (#[trigger] back[i]).key,
            (#[trigger] back[j]).key,
        ) by {
            assert(list[i + 1] == back[i]);
            assert(list[j + 1] == back[j]);
        }
        climbing(next, model, id, 1);
        if back.len() > 0 {
            assert(list[1] == back[0]);
        }
    }
}

} // verus!
