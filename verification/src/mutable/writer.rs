//! Multi-record publication under the adapter's per-index writer interlock.
//! All payload bytes are prepared before entry. Only the final owner update
//! admits a document to scans; transaction visibility remains the host's job.

use crate::codec::bytes::u32_bytes;
use crate::error::{Error, Result};
use crate::identity::{group_identity, Incarnation, RootTid};
use crate::mutable::document::{
    document_entries, validated, DocumentTerm, DocumentTerms, PreparedDocument, TermEntry,
};
use crate::mutable::page::model::{
    fragment_image, fresh_image, metadata_bytes, postings_image, term_bucket, Image,
};
use crate::mutable::page::{
    bucket_for, OwnerChange, OwnerRef, Page, PageKind, Term, TermRef, FRAGMENT_BYTES, INLINE_BYTES,
    NO_BLOCK,
};
use crate::mutable::steps::block_taken;
use crate::mutable::store::{
    allocate, allocated, commit_one, commit_three, commit_two, find_term, load, performs, zero_image,
    Change, PageStore, Stage, StoreModel,
};
use crate::text::text_bytes;
use crate::mutable::quiet::{
    marked_live, quiet, quiet_changed, quiet_extended, quiet_joins, quiet_page, quiet_put, quiet_reserved,
    quiet_same, quiet_three, quiet_two,
};
use vstd::prelude::*;

verus! {

broadcast use group_identity;

/// The relation after its creation: metadata and nothing else.
pub open spec fn initialized(model: StoreModel) -> Change<()> {
    if model.pages.len() != 0 {
        Change::refused(model, Error::InvalidState)
    } else {
        Change::made(
            model.extended().put(
                Image {
                    block: 0,
                    kind: PageKind::Meta,
                    initialize: false,
                    bytes: metadata_bytes(model.layout),
                },
            ),
            (),
        )
    }
}

/// Creates the metapage of a new, empty relation under the writer interlock.
pub fn initialize<S: PageStore>(store: &mut S) -> (result: Result<()>)
    ensures
        performs(
            old(store).host(),
            final(store).host(),
            result,
            initialized(old(store).host().model),
        ),
{
    if store.blocks()? != 0 {
        return Err(Error::InvalidState);
    }
    if allocate(store)? != 0 {
        return Err(Error::InvalidState);
    }
    let meta: Page = Page::metadata(store.layout())?;
    commit_one(store, &meta)
}

/// A page without owners.
pub open spec fn owners_image(block: u32) -> Result<Image> {
    match fresh_image(block, PageKind::Owners) {
        Err(error) => Err(error),
        Ok(image) => Ok(Image { bytes: image.bytes + seq![0u8, 0u8, 0u8, 0u8], ..image }),
    }
}

/// What an owner slot is reserved for.
pub struct Reservation {
    pub root: RootTid,
    pub tokens: u32,
    pub terms: u32,
    pub payload: Seq<u8>,
}

/// A new owner page with one reserved slot.
pub open spec fn first_owner(block: u32, incarnation: Incarnation, request: Reservation) -> Result<
    (OwnerRef, Image),
> {
    match owners_image(block) {
        Err(error) => Err(error),
        Ok(page) => match page.appended_owner(
            incarnation,
            request.root,
            request.tokens,
            request.terms,
            request.payload,
        ) {
            Err(error) => Err(error),
            Ok(None) => Err(Error::InvalidState),
            Ok(Some((owner, page))) => Ok((owner, page)),
        },
    }
}

/// Reserving an owner slot at the end of the owner chain: the reference and
/// the metadata then.
pub open spec fn owner_reserved(model: StoreModel, meta: Image, request: Reservation) -> Change<
    (OwnerRef, Image),
> {
    match meta.with_reserved() {
        Err(error) => Change::refused(model, error),
        Ok((incarnation, meta)) => match meta.owner_chain() {
            Err(error) => Change::refused(model, error),
            Ok((head, tail)) => if head == NO_BLOCK {
                let grown = allocated(model);
                match grown.value {
                    Err(error) => Change::refused(grown.model, error),
                    Ok(block) => match first_owner(block, incarnation, request) {
                        Err(error) => Change::refused(grown.model, error),
                        Ok((owner, page)) => match meta.with_owner_chain(block, block) {
                            Err(error) => Change::refused(grown.model, error),
                            Ok(meta) => Change::made(
                                grown.model.put(meta).put(page),
                                (owner, meta),
                            ),
                        },
                    },
                }
            } else {
                match model.load(tail, PageKind::Owners) {
                    Err(error) => Change::refused(model, error),
                    Ok(last) => match last.appended_owner(
                        incarnation,
                        request.root,
                        request.tokens,
                        request.terms,
                        request.payload,
                    ) {
                        Err(error) => Change::refused(model, error),
                        Ok(Some((owner, page))) => Change::made(
                            model.put(meta).put(page),
                            (owner, meta),
                        ),
                        Ok(None) => {
                            let grown = allocated(model);
                            match grown.value {
                                Err(error) => Change::refused(grown.model, error),
                                Ok(block) => match first_owner(block, incarnation, request) {
                                    Err(error) => Change::refused(grown.model, error),
                                    Ok((owner, page)) => match last.with_next(block) {
                                        Err(error) => Change::refused(grown.model, error),
                                        Ok(last) => match meta.with_owner_chain(head, block) {
                                            Err(error) => Change::refused(grown.model, error),
                                            Ok(meta) => Change::made(
                                                grown.model.put(meta).put(last).put(page),
                                                (owner, meta),
                                            ),
                                        },
                                    },
                                },
                            }
                        },
                    },
                }
            },
        },
    }
}

/// Whether the metadata page is at hand.
pub open spec fn has_meta(model: StoreModel, meta: Image) -> bool {
    meta.block == 0 && model.has(0)
}

fn new_owner(block: u32, incarnation: Incarnation, root: RootTid, document: &PreparedDocument) -> (
result: Result<(OwnerRef, Page)>)
    ensures
        ({
            let expected = first_owner(
                block,
                incarnation,
                reservation(root, document@),
            );
            match result {
                Ok((owner, page)) => expected == Ok::<(OwnerRef, Image), Error>((owner, page@)),
                Err(error) => expected == Err::<(OwnerRef, Image), Error>(error),
            }
        }),
{
    let mut page: Page = Page::owners(block)?;
    match page.append_owner(
        incarnation,
        root,
        document.token_count(),
        document.term_count(),
        document.bytes(),
    )? {
        Some(owner) => Ok((owner, page)),
        None => Err(Error::InvalidState),
    }
}

/// The slot that a document needs.
pub open spec fn reservation(root: RootTid, bytes: Seq<u8>) -> Reservation {
    Reservation {
        root,
        tokens: validated(bytes)->Ok_0.0,
        terms: validated(bytes)->Ok_0.1,
        payload: bytes,
    }
}

#[verifier::rlimit(80)]
#[verifier::spinoff_prover]
fn reserve_owner<S: PageStore>(
    store: &mut S,
    meta: &mut Page,
    root: RootTid,
    document: &PreparedDocument,
) -> (result: Result<OwnerRef>)
    requires
        has_meta(old(store).host().model, old(meta)@),
    ensures
        quiet(old(store).host().model, final(store).host().model),
        result is Ok ==> has_meta(final(store).host().model, final(meta)@),
        ({
            let change = owner_reserved(
                old(store).host().model,
                old(meta)@,
                reservation(root, document@),
            );
            performs(
                old(store).host(),
                final(store).host(),
                match result {
                    Ok(owner) => Ok((owner, final(meta)@)),
                    Err(error) => Err(error),
                },
                change,
            )
        }),
{
    let ghost model = store.host().model;
    let ghost request = reservation(root, document@);
    proof {
        quiet_same(model);
        quiet_extended(model);
    }
    let incarnation: Incarnation = meta.reserve_incarnation()?;
    let (head, tail): (u32, u32) = meta.owner_chain()?;
    if head == NO_BLOCK {
        let block: u32 = allocate(store)?;
        let (owner, page): (OwnerRef, Page) = new_owner(block, incarnation, root, document)?;
        meta.set_owner_chain(block, block)?;
        proof {
            fresh_owner_quiet(block, incarnation, request);
            quiet_two(model.extended(), meta@, page@);
            quiet_joins(model, model.extended(), model.extended().put(meta@).put(page@));
        }
        commit_two(store, meta, &page)?;
        return Ok(owner);
    }
    let mut page: Page = load(store, tail, PageKind::Owners)?;
    if let Some(owner) = page.append_owner(
        incarnation,
        root,
        document.token_count(),
        document.term_count(),
        document.bytes(),
    )? {
        proof {
            quiet_reserved(
                model.pages[tail as int],
                incarnation,
                request.root,
                request.tokens,
                request.terms,
                request.payload,
            );
            quiet_two(model, meta@, page@);
        }
        commit_two(store, meta, &page)?;
        return Ok(owner);
    }
    let block: u32 = allocate(store)?;
    let (owner, next): (OwnerRef, Page) = new_owner(block, incarnation, root, document)?;
    let ghost last = page@;
    page.set_next(block)?;
    meta.set_owner_chain(head, block)?;
    proof {
        fresh_owner_quiet(block, incarnation, request);
        link_quiet(last, block);
        quiet_three(model.extended(), meta@, page@, next@);
        quiet_joins(model, model.extended(), model.extended().put(meta@).put(page@).put(next@));
    }
    commit_three(store, meta, &page, &next)?;
    Ok(owner)
}

/// The first owner of a page is not live.
proof fn fresh_owner_quiet(block: u32, incarnation: Incarnation, request: Reservation)
    requires
        first_owner(block, incarnation, request) is Ok,
    ensures
        quiet_page(zero_image(block), first_owner(block, incarnation, request)->Ok_0.1),
{
    broadcast use crate::codec::bytes::group_bytes;

    let page = owners_image(block)->Ok_0;
    quiet_reserved(
        page,
        incarnation,
        request.root,
        request.tokens,
        request.terms,
        request.payload,
    );
    let after = first_owner(block, incarnation, request)->Ok_0.1;
    assert(page.bytes.len() <= 20);
    assert forall|slot: int| #[trigger] marked_live(after, slot) implies marked_live(
        zero_image(block),
        slot,
    ) by {
        assert(marked_live(page, slot));
    }
}

/// Linking a page makes no owner live.
proof fn link_quiet(page: Image, next: u32)
    requires
        page.bytes.len() >= 20,
    ensures
        quiet_page(page, page.patched(12, u32_bytes(next))),
{
    broadcast use crate::codec::bytes::group_bytes;

    let after = page.patched(12, u32_bytes(next));
    assert(after.bytes.len() == page.bytes.len());
    assert(after.bytes.subrange(16, 18) =~= page.bytes.subrange(16, 18));
    crate::mutable::page::laws_state::le_equal(after.bytes, 16, page.bytes, 16, 2);
    assert forall|slot: int| #[trigger] marked_live(after, slot) implies marked_live(page, slot) by {
        assert(after.bytes[20 + slot * 40 + 15] == page.bytes[20 + slot * 40 + 15]);
    }
}

/// The piece of a payload that the fragment at `index` holds.
pub open spec fn fragment_piece(bytes: Seq<u8>, index: int) -> Seq<u8> {
    bytes.subrange(
        index * 8132,
        if index * 8132 + 8132 < bytes.len() {
            index * 8132 + 8132
        } else {
            bytes.len() as int
        },
    )
}

/// Storing one fragment in front of `next`: its block and the metadata then.
pub open spec fn fragment_stored(
    model: StoreModel,
    meta: Image,
    owner: OwnerRef,
    next: u32,
    offset: int,
    piece: Seq<u8>,
) -> Change<(u32, Image)> {
    let taken = block_taken(model, meta);
    match taken.value {
        Err(error) => Change::refused(taken.model, error),
        Ok((block, spent)) => match fragment_image(block, owner, next, offset as u32, piece) {
            Err(error) => Change::refused(taken.model, error),
            Ok(page) => Change::made(
                if meta.free_head()->Ok_0 == NO_BLOCK {
                    taken.model.put(page)
                } else {
                    taken.model.put(spent).put(page)
                },
                (block, spent),
            ),
        },
    }
}

/// Storing the fragments below `index`, the last one first: the block of the
/// first fragment and the metadata then.
pub open spec fn fragments_stored(
    model: StoreModel,
    meta: Image,
    owner: OwnerRef,
    bytes: Seq<u8>,
    index: nat,
    next: u32,
) -> Change<(u32, Image)>
    decreases index,
{
    if index == 0 {
        Change::made(model, (next, meta))
    } else {
        let last = (index - 1) as nat;
        let step = fragment_stored(
            model,
            meta,
            owner,
            next,
            last as int * 8132,
            fragment_piece(bytes, last as int),
        );
        match step.value {
            Err(error) => Change::refused(step.model, error),
            Ok((block, meta)) => fragments_stored(step.model, meta, owner, bytes, last, block),
        }
    }
}

/// Takes a block for new content.
pub(crate) fn take_block<S: PageStore>(store: &mut S, meta: &mut Page) -> (result: Result<u32>)
    requires
        has_meta(old(store).host().model, old(meta)@),
    ensures
        final(store).host().model == old(store).host().model || final(store).host().model == old(store).host().model.extended(),
        result is Ok ==> has_meta(final(store).host().model, final(meta)@),
        performs(
            old(store).host(),
            final(store).host(),
            match result {
                Ok(block) => Ok((block, final(meta)@)),
                Err(error) => Err(error),
            },
            block_taken(old(store).host().model, old(meta)@),
        ),
        result matches Ok(block) ==> final(store).host().model.has(block),
{
    let free: u32 = meta.free_head()?;
    if free == NO_BLOCK {
        allocate(store)
    } else {
        let page: Page = load(store, free, PageKind::Free)?;
        let next: u32 = page.next()?;
        meta.set_free_head(next)?;
        Ok(free)
    }
}

/// Stores the fragments of a payload that does not fit into its owner page.
#[verifier::loop_isolation(false)]
fn store_fragments<S: PageStore>(
    store: &mut S,
    meta: &mut Page,
    owner: OwnerRef,
    bytes: &[u8],
) -> (result: Result<u32>)
    requires
        has_meta(old(store).host().model, old(meta)@),
        bytes@.len() <= crate::mutable::document::MAX_DOCUMENT_BYTES,
    ensures
        quiet(old(store).host().model, final(store).host().model),
        result is Ok ==> has_meta(final(store).host().model, final(meta)@),
        performs(
            old(store).host(),
            final(store).host(),
            match result {
                Ok(block) => Ok((block, final(meta)@)),
                Err(error) => Err(error),
            },
            payload_stored(old(store).host().model, old(meta)@, owner, bytes@),
        ),
{
    let ghost total = payload_stored(store.host().model, meta@, owner, bytes@);
    let ghost begun = store.host().model;
    let mut head: u32 = NO_BLOCK;
    proof {
        quiet_same(begun);
    }
    if bytes.len() <= INLINE_BYTES {
        return Ok(head);
    }
    let mut index: usize = (bytes.len() + (FRAGMENT_BYTES - 1)) / FRAGMENT_BYTES;
    while index > 0
        invariant
            index * 8132 < bytes@.len() + 8132,
            quiet(begun, store.host().model),
            crate::mutable::store::same_host(old(store).host(), store.host()),
            has_meta(store.host().model, meta@),
            total == fragments_stored(
                store.host().model,
                meta@,
                owner,
                bytes@,
                index as nat,
                head,
            ),
        decreases index,
    {
        index = index - 1;
        let offset: usize = index * FRAGMENT_BYTES;
        let end: usize = if bytes.len() - offset < FRAGMENT_BYTES {
            bytes.len()
        } else {
            offset + FRAGMENT_BYTES
        };
        let ghost middle = store.host().model;
        proof {
            quiet_extended(middle);
            quiet_joins(begun, middle, middle.extended());
        }
        let free: u32 = meta.free_head()?;
        let block: u32 = take_block(store, meta)?;
        let ghost taken = store.host().model;
        let piece: &[u8] = &bytes[offset..end];
        assert(piece@ =~= fragment_piece(bytes@, index as int));
        let page: Page = Page::fragment(block, owner, head, offset as u32, piece)?;
        proof {
            quiet_put(taken, page@);
            quiet_joins(begun, taken, taken.put(page@));
            if free != NO_BLOCK {
                quiet_two(taken, meta@, page@);
                quiet_joins(begun, taken, taken.put(meta@).put(page@));
            }
        }
        if free == NO_BLOCK {
            commit_one(store, &page)?;
        } else {
            // removal from the free list and new ownership are one batch.
            commit_two(store, meta, &page)?;
        }
        head = block;
        store.event(Stage::FragmentStored)?;
    }
    Ok(head)
}

/// Storing a payload: nothing where it stands in its owner page.
pub open spec fn payload_stored(model: StoreModel, meta: Image, owner: OwnerRef, bytes: Seq<u8>) -> Change<
    (u32, Image),
> {
    if bytes.len() <= INLINE_BYTES {
        Change::made(model, (NO_BLOCK, meta))
    } else {
        fragments_stored(
            model,
            meta,
            owner,
            bytes,
            ((bytes.len() + 8131) / 8132) as nat,
            NO_BLOCK,
        )
    }
}

/// A page whose first posting is the owner.
pub open spec fn first_posting(block: u32, term: TermRef, owner: OwnerRef) -> Result<Image> {
    match postings_image(block, term, PageKind::Postings) {
        Err(error) => Err(error),
        Ok(page) => match page.with_posting(owner) {
            Err(error) => Err(error),
            Ok(None) => Err(Error::InvalidState),
            Ok(Some(page)) => Ok(page),
        },
    }
}

/// Adding an owner to the posting chain of a known term.
pub open spec fn posting_added(
    model: StoreModel,
    dictionary: Image,
    reference: TermRef,
    owner: OwnerRef,
) -> Change<()> {
    match dictionary.term(reference) {
        Err(error) => Change::refused(model, error),
        Ok(term) => if term.head == NO_BLOCK {
            let grown = allocated(model);
            match grown.value {
                Err(error) => Change::refused(grown.model, error),
                Ok(block) => match first_posting(block, reference, owner) {
                    Err(error) => Change::refused(grown.model, error),
                    Ok(page) => match dictionary.with_posting_chain(reference, block, block) {
                        Err(error) => Change::refused(grown.model, error),
                        Ok(dictionary) => Change::made(grown.model.put(dictionary).put(page), ()),
                    },
                },
            }
        } else {
            match model.load(term.tail, PageKind::Postings) {
                Err(error) => Change::refused(model, error),
                Ok(last) => match last.posting_term() {
                    Err(error) => Change::refused(model, error),
                    Ok(other) => if other != reference {
                        Change::refused(model, Error::InvalidState)
                    } else {
                        match last.with_posting(owner) {
                            Err(error) => Change::refused(model, error),
                            Ok(Some(page)) => Change::made(model.put(page), ()),
                            Ok(None) => {
                                let grown = allocated(model);
                                match grown.value {
                                    Err(error) => Change::refused(grown.model, error),
                                    Ok(block) => match first_posting(block, reference, owner) {
                                        Err(error) => Change::refused(grown.model, error),
                                        Ok(page) => match last.with_next(block) {
                                            Err(error) => Change::refused(grown.model, error),
                                            Ok(last) => match dictionary.with_posting_chain(
                                                reference,
                                                term.head,
                                                block,
                                            ) {
                                                Err(error) => Change::refused(grown.model, error),
                                                Ok(dictionary) => Change::made(
                                                    grown.model.put(dictionary).put(last).put(
                                                        page,
                                                    ),
                                                    (),
                                                ),
                                            },
                                        },
                                    },
                                }
                            },
                        }
                    },
                },
            }
        },
    }
}

/// A dictionary page whose first term is the given one.
pub open spec fn first_term(block: u32, text: Seq<u8>, owner: OwnerRef) -> Result<Image> {
    match fresh_image(block, PageKind::Dictionary) {
        Err(error) => Err(error),
        Ok(page) => match page.with_term(text, owner) {
            Err(error) => Err(error),
            Ok(None) => Err(Error::InvalidState),
            Ok(Some(page)) => Ok(page),
        },
    }
}

/// Adding a new term with its first owner: the metadata then.
pub open spec fn term_added(model: StoreModel, meta: Image, text: Seq<u8>, owner: OwnerRef) -> Change<
    Image,
> {
    let bucket = term_bucket(text);
    match meta.bucket(bucket) {
        Err(error) => Change::refused(model, error),
        Ok((head, tail)) => if head == NO_BLOCK {
            let grown = allocated(model);
            match grown.value {
                Err(error) => Change::refused(grown.model, error),
                Ok(block) => match first_term(block, text, owner) {
                    Err(error) => Change::refused(grown.model, error),
                    Ok(page) => match meta.with_bucket(bucket, block, block) {
                        Err(error) => Change::refused(grown.model, error),
                        Ok(meta) => Change::made(grown.model.put(meta).put(page), meta),
                    },
                },
            }
        } else {
            match model.load(tail, PageKind::Dictionary) {
                Err(error) => Change::refused(model, error),
                Ok(last) => match last.with_term(text, owner) {
                    Err(error) => Change::refused(model, error),
                    Ok(Some(page)) => Change::made(model.put(page), meta),
                    Ok(None) => {
                        let grown = allocated(model);
                        match grown.value {
                            Err(error) => Change::refused(grown.model, error),
                            Ok(block) => match first_term(block, text, owner) {
                                Err(error) => Change::refused(grown.model, error),
                                Ok(page) => match last.with_next(block) {
                                    Err(error) => Change::refused(grown.model, error),
                                    Ok(last) => match meta.with_bucket(bucket, head, block) {
                                        Err(error) => Change::refused(grown.model, error),
                                        Ok(meta) => Change::made(
                                            grown.model.put(meta).put(last).put(page),
                                            meta,
                                        ),
                                    },
                                },
                            },
                        }
                    },
                },
            }
        },
    }
}

/// Making an owner reachable from a term: the metadata then.
pub open spec fn term_linked(model: StoreModel, meta: Image, text: Seq<u8>, owner: OwnerRef) -> Change<
    Image,
> {
    match model.find_term(meta, text) {
        Err(error) => Change::refused(model, error),
        Ok(Some((dictionary, reference))) => {
            let added = posting_added(model, dictionary, reference, owner);
            match added.value {
                Err(error) => Change::refused(added.model, error),
                Ok(_) => Change::made(added.model, meta),
            }
        },
        Ok(None) => term_added(model, meta, text, owner),
    }
}

fn new_posting(block: u32, term: TermRef, owner: OwnerRef) -> (result: Result<Page>)
    ensures
        match first_posting(block, term, owner) {
            Err(error) => result matches Err(e) && e == error,
            Ok(image) => result matches Ok(page) && page@ == image,
        },
{
    let mut page: Page = Page::postings(block, term)?;
    if !page.append_posting(owner)? {
        return Err(Error::InvalidState);
    }
    Ok(page)
}

fn new_term(block: u32, text: &str, owner: OwnerRef) -> (result: Result<Page>)
    ensures
        match first_term(block, text_bytes(text), owner) {
            Err(error) => result matches Err(e) && e == error,
            Ok(image) => result matches Ok(page) && page@ == image,
        },
{
    let mut page: Page = Page::dictionary(block)?;
    match page.append_term(text, owner)? {
        Some(_) => Ok(page),
        None => Err(Error::InvalidState),
    }
}

/// Adds an owner to the posting chain of a term.
fn add_posting<S: PageStore>(
    store: &mut S,
    dictionary: &mut Page,
    reference: TermRef,
    owner: OwnerRef,
) -> (result: Result<()>)
    requires
        old(store).host().model.load(old(dictionary)@.block, PageKind::Dictionary) == Ok::<
            Image,
            Error,
        >(old(dictionary)@),
    ensures
        quiet(old(store).host().model, final(store).host().model),
        performs(
            old(store).host(),
            final(store).host(),
            result,
            posting_added(old(store).host().model, old(dictionary)@, reference, owner),
        ),
{
    let ghost model = store.host().model;
    proof {
        quiet_same(model);
        quiet_extended(model);
    }
    let (head, tail): (u32, u32) = {
        let term: Term<'_> = dictionary.term(reference)?;
        assert(term@ == dictionary@.term(reference)->Ok_0);
        (term.head, term.tail)
    };
    if head == NO_BLOCK {
        let block: u32 = allocate(store)?;
        let page: Page = new_posting(block, reference, owner)?;
        dictionary.set_posting_chain(reference, block, block)?;
        proof {
            quiet_two(model.extended(), dictionary@, page@);
            quiet_joins(model, model.extended(), model.extended().put(dictionary@).put(page@));
        }
        return commit_two(store, dictionary, &page);
    }
    let mut page: Page = load(store, tail, PageKind::Postings)?;
    if page.posting_term()? != reference {
        return Err(Error::InvalidState);
    }
    if page.append_posting(owner)? {
        proof {
            quiet_put(model, page@);
        }
        return commit_one(store, &page);
    }
    let block: u32 = allocate(store)?;
    let next: Page = new_posting(block, reference, owner)?;
    page.set_next(block)?;
    dictionary.set_posting_chain(reference, head, block)?;
    proof {
        let after = model.extended();
        quiet_three(after, dictionary@, page@, next@);
        quiet_joins(model, after, after.put(dictionary@).put(page@).put(next@));
    }
    commit_three(store, dictionary, &page, &next)
}

/// Adds a term that the dictionary lacks.
fn add_term<S: PageStore>(store: &mut S, meta: &mut Page, text: &str, owner: OwnerRef) -> (result:
    Result<()>)
    requires
        has_meta(old(store).host().model, old(meta)@),
    ensures
        quiet(old(store).host().model, final(store).host().model),
        result is Ok ==> has_meta(final(store).host().model, final(meta)@),
        performs(
            old(store).host(),
            final(store).host(),
            match result {
                Ok(_) => Ok(final(meta)@),
                Err(error) => Err(error),
            },
            term_added(old(store).host().model, old(meta)@, text_bytes(text), owner),
        ),
{
    let ghost model = store.host().model;
    proof {
        quiet_same(model);
        quiet_extended(model);
    }
    let bucket: usize = bucket_for(text);
    let (head, tail): (u32, u32) = meta.bucket(bucket)?;
    if head == NO_BLOCK {
        let block: u32 = allocate(store)?;
        let page: Page = new_term(block, text, owner)?;
        meta.set_bucket(bucket, block, block)?;
        proof {
            quiet_two(model.extended(), meta@, page@);
            quiet_joins(model, model.extended(), model.extended().put(meta@).put(page@));
        }
        return commit_two(store, meta, &page);
    }
    let mut page: Page = load(store, tail, PageKind::Dictionary)?;
    if page.append_term(text, owner)?.is_some() {
        proof {
            quiet_put(model, page@);
        }
        return commit_one(store, &page);
    }
    let block: u32 = allocate(store)?;
    let next: Page = new_term(block, text, owner)?;
    page.set_next(block)?;
    meta.set_bucket(bucket, head, block)?;
    proof {
        let after = model.extended();
        quiet_three(after, meta@, page@, next@);
        quiet_joins(model, after, after.put(meta@).put(page@).put(next@));
    }
    commit_three(store, meta, &page, &next)
}

fn link_term<S: PageStore>(store: &mut S, meta: &mut Page, text: &str, owner: OwnerRef) -> (result:
    Result<()>)
    requires
        has_meta(old(store).host().model, old(meta)@),
    ensures
        quiet(old(store).host().model, final(store).host().model),
        result is Ok ==> has_meta(final(store).host().model, final(meta)@),
        performs(
            old(store).host(),
            final(store).host(),
            match result {
                Ok(_) => Ok(final(meta)@),
                Err(error) => Err(error),
            },
            term_linked(old(store).host().model, old(meta)@, text_bytes(text), owner),
        ),
{
    proof {
        quiet_same(store.host().model);
    }
    match find_term(store, meta, text)? {
        Some((mut dictionary, reference)) => {
            proof {
                found_page_loaded(store.host().model, meta@, text_bytes(text));
            }
            add_posting(store, &mut dictionary, reference, owner)
        },
        None => add_term(store, meta, text, owner),
    }
}

/// A dictionary page that a search found is the checked page of its block.
proof fn found_page_loaded(model: StoreModel, meta: Image, text: Seq<u8>)
    ensures
        model.find_term(meta, text) matches Ok(Some((image, _))) ==> model.load(
            image.block,
            PageKind::Dictionary,
        ) == Ok::<Image, Error>(image),
{
    if let Ok((head, tail)) = meta.bucket(term_bucket(text)) {
        found_from_loaded(model, text, head, tail, None);
    }
}

proof fn found_from_loaded(
    model: StoreModel,
    text: Seq<u8>,
    block: u32,
    tail: u32,
    found: Option<(Image, TermRef)>,
)
    requires
        found matches Some((image, _)) ==> model.load(image.block, PageKind::Dictionary) == Ok::<
            Image,
            Error,
        >(image),
    ensures
        model.find_from(text, block, tail, found) matches Ok(Some((image, _))) ==> model.load(
            image.block,
            PageKind::Dictionary,
        ) == Ok::<Image, Error>(image),
    decreases tail - block,
{
    if let Ok(image) = model.load(block, PageKind::Dictionary) {
        if let Ok(outcomes) = image.terms() {
            if let Ok(reference) = crate::mutable::store::entry_named(outcomes, text, found is Some) {
                let now = match reference {
                    Some(reference) => Some((image, reference)),
                    None => found,
                };
                if let Ok(Some(next)) = crate::mutable::store::following_of(image, tail) {
                    if block < next <= tail {
                        found_from_loaded(model, text, next, tail, now);
                    }
                }
            }
        }
    }
}

/// Making an owner reachable from each of its terms: the metadata then.
pub open spec fn terms_linked(
    model: StoreModel,
    meta: Image,
    entries: Seq<TermEntry>,
    owner: OwnerRef,
) -> Change<Image>
    decreases entries.len(),
{
    if entries.len() == 0 {
        Change::made(model, meta)
    } else {
        let step = term_linked(model, meta, entries[0].term, owner);
        match step.value {
            Err(error) => step,
            Ok(meta) => terms_linked(step.model, meta, entries.drop_first(), owner),
        }
    }
}

/// Changing the publication or liveness of an owner.
pub open spec fn owner_changed(model: StoreModel, owner: OwnerRef, change: OwnerChange) -> Change<()> {
    match model.load(owner.page, PageKind::Owners) {
        Err(error) => Change::refused(model, error),
        Ok(page) => match page.changed_owner(owner, change, model.layout) {
            Err(error) => Change::refused(model, error),
            Ok(page) => Change::made(model.put(page), ()),
        },
    }
}

/// Publishing a document behind a reserved slot: its payload, its terms and
/// last the publication.
pub open spec fn owner_published(model: StoreModel, meta: Image, owner: OwnerRef, bytes: Seq<u8>) -> Change<
    OwnerRef,
> {
    let stored = payload_stored(model, meta, owner, bytes);
    match stored.value {
        Err(error) => Change::refused(stored.model, error),
        Ok((head, meta)) => {
            let ready = owner_changed(stored.model, owner, OwnerChange::PayloadReady(head));
            match ready.value {
                Err(error) => Change::refused(ready.model, error),
                Ok(_) => {
                    let linked = terms_linked(
                        ready.model,
                        meta,
                        document_entries(bytes),
                        owner,
                    );
                    match linked.value {
                        Err(error) => Change::refused(linked.model, error),
                        Ok(_) => {
                            let published = owner_changed(
                                linked.model,
                                owner,
                                OwnerChange::Publish,
                            );
                            match published.value {
                                Err(error) => Change::refused(published.model, error),
                                Ok(_) => Change::made(published.model, owner),
                            }
                        },
                    }
                },
            }
        },
    }
}

/// Inserting a document: a reserved slot, then all that publication takes.
pub open spec fn inserted(model: StoreModel, root: RootTid, bytes: Seq<u8>) -> Change<OwnerRef> {
    match model.load(0, PageKind::Meta) {
        Err(error) => Change::refused(model, error),
        Ok(meta) => {
            let reserved = owner_reserved(model, meta, reservation(root, bytes));
            match reserved.value {
                Err(error) => Change::refused(reserved.model, error),
                Ok((owner, meta)) => owner_published(reserved.model, meta, owner, bytes),
            }
        },
    }
}

/// Changes the publication or liveness of an owner.
fn change_owner<S: PageStore>(store: &mut S, owner: OwnerRef, change: OwnerChange) -> (result: Result<()>)
    ensures
        performs(
            old(store).host(),
            final(store).host(),
            result,
            owner_changed(old(store).host().model, owner, change),
        ),
        !(change is Publish) ==> quiet(old(store).host().model, final(store).host().model),
        result is Err ==> final(store).host().model == old(store).host().model
            || final(store).host().model == owner_changed(
            old(store).host().model,
            owner,
            change,
        ).model,
{
    let ghost model = store.host().model;
    proof {
        quiet_same(model);
    }
    let mut owners: Page = load(store, owner.page, PageKind::Owners)?;
    let ghost before = owners@;
    owners.change_owner(owner, change, store.layout())?;
    proof {
        if !(change is Publish) {
            quiet_changed(before, owner, change, model.layout);
            quiet_put(model, owners@);
        }
    }
    commit_one(store, &owners)
}

/// Makes an owner reachable from each of its terms.
#[verifier::loop_isolation(false)]
fn link_terms<S: PageStore>(
    store: &mut S,
    meta: &mut Page,
    document: &PreparedDocument,
    owner: OwnerRef,
) -> (result: Result<()>)
    requires
        has_meta(old(store).host().model, old(meta)@),
    ensures
        quiet(old(store).host().model, final(store).host().model),
        performs(
            old(store).host(),
            final(store).host(),
            match result {
                Ok(_) => Ok(final(meta)@),
                Err(error) => Err(error),
            },
            terms_linked(
                old(store).host().model,
                old(meta)@,
                document_entries(document@),
                owner,
            ),
        ),
{
    let mut terms: DocumentTerms<'_> = document.terms();
    let ghost entries = document_entries(document@);
    let ghost outcomes = terms@;
    let ghost total = terms_linked(store.host().model, meta@, entries, owner);
    let ghost mut index: int = 0;
    let ghost begun = store.host().model;
    proof {
        quiet_same(begun);
    }
    assert(outcomes.skip(0) =~= outcomes);
    assert(entries.skip(0) =~= entries);
    loop
        invariant
            0 <= index <= entries.len(),
            quiet(begun, store.host().model),
            terms@ == outcomes.skip(index),
            crate::mutable::store::same_host(old(store).host(), store.host()),
            has_meta(store.host().model, meta@),
            total == terms_linked(store.host().model, meta@, entries.skip(index), owner),
        decreases terms@.len(),
    {
        let next: Option<Result<DocumentTerm<'_>>> = terms.next();
        let term: DocumentTerm<'_> = match next {
            None => {
                return Ok(());
            },
            Some(term) => {
                proof {
                    assert(outcomes.skip(index)[0] == outcomes[index]);
                    assert(terms@ =~= outcomes.skip(index + 1));
                    assert(entries.skip(index).drop_first() =~= entries.skip(index + 1));
                    index = index + 1;
                }
                term?
            },
        };
        let ghost middle = store.host().model;
        let linked: Result<()> = link_term(store, meta, term.term, owner);
        proof {
            quiet_joins(begun, middle, store.host().model);
        }
        linked?;
        store.event(Stage::TermLinked)?;
    }
}

/// Publishes one complete document; failure can leave reclaimable preparation.
///
/// # Errors
/// Any storage, format or capacity error aborts insertion. Success means all
/// dictionary references and exact payload bytes precede the publication record.
/// This is index publication, not transaction commit or snapshot visibility.
pub fn insert<S: PageStore>(store: &mut S, root: RootTid, document: &PreparedDocument) -> (result:
    Result<OwnerRef>)
    ensures
        performs(
            old(store).host(),
            final(store).host(),
            result,
            inserted(old(store).host().model, root, document@),
        ),
        result is Err ==> quiet(old(store).host().model, final(store).host().model) || (
        final(store).host().model == inserted(old(store).host().model, root, document@).model
            && inserted(old(store).host().model, root, document@).value is Ok),
{
    let ghost begun = store.host().model;
    proof {
        quiet_same(begun);
    }
    let mut meta: Page = load(store, 0, PageKind::Meta)?;
    let owner: OwnerRef = reserve_owner(store, &mut meta, root, document)?;
    store.event(Stage::OwnerReserved)?;
    let ghost reserved = store.host().model;
    let stored: Result<u32> = store_fragments(store, &mut meta, owner, document.bytes());
    let ghost filled = store.host().model;
    proof {
        quiet_joins(begun, reserved, filled);
    }
    let head: u32 = stored?;
    let ready: Result<()> = change_owner(store, owner, OwnerChange::PayloadReady(head));
    let ghost prepared = store.host().model;
    proof {
        quiet_joins(begun, filled, prepared);
    }
    ready?;
    store.event(Stage::PayloadReady)?;
    let linked: Result<()> = link_terms(store, &mut meta, document, owner);
    proof {
        quiet_joins(begun, prepared, store.host().model);
    }
    linked?;
    // reload after all preparation; no page borrow crosses host I/O.
    change_owner(store, owner, OwnerChange::Publish)?;
    store.event(Stage::Published)?;
    Ok(owner)
}

} // verus!
