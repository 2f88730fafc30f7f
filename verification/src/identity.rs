//! Physical coordinates scoped by relation generation and document incarnation.
//! Constructors validate integer domains, not heap existence or visibility.

use vstd::prelude::*;

verus! {

/// Invalid identity input; constructing an identity never allocates.
#[derive(Clone, Copy, Debug, Eq, PartialEq, Structural)]
pub enum IdentityError {
    InvalidBlock,
    InvalidOffset,
    InvalidLayout,
    ZeroIdentifier,
    GenerationExhausted,
}

/// The largest number of line pointers that per-page scratch can describe.
pub const MAX_LAYOUT: u16 = 512;

/// A validated heap offset domain derived from the supported server headers.
#[derive(Clone, Copy, Debug, Eq, PartialEq, Structural)]
pub struct HeapLayout {
    max_offset: u16,
}

impl HeapLayout {
    #[verifier::type_invariant]
    closed spec fn inv(self) -> bool {
        1 <= self.max_offset <= MAX_LAYOUT
    }

    /// The layout whose largest offset is `max_offset`.
    pub closed spec fn of(max_offset: u16) -> HeapLayout {
        HeapLayout { max_offset }
    }

    pub closed spec fn spec_max_offset(self) -> u16 {
        self.max_offset
    }

    /// Validates a server-derived bound against the private scratch capacity.
    ///
    /// # Errors
    /// Returns `InvalidLayout` for zero or more than 512 offsets.
    pub fn new(max_offset: u16) -> (result: Result<Self, IdentityError>)
        ensures
            result == (if max_offset == 0 || max_offset > 512 {
                Err(IdentityError::InvalidLayout)
            } else {
                Ok(HeapLayout::of(max_offset))
            }),
    {
        if max_offset == 0 || max_offset > MAX_LAYOUT {
            return Err(IdentityError::InvalidLayout);
        }
        Ok(HeapLayout { max_offset })
    }

    #[verifier::when_used_as_spec(spec_max_offset)]
    pub fn max_offset(self) -> (max_offset: u16)
        ensures
            max_offset == self.max_offset(),
            1 <= max_offset <= 512,
    {
        proof {
            use_type_invariant(&self);
        }
        self.max_offset
    }

    /// A layout is its largest offset.
    pub proof fn of_layout(self)
        ensures
            HeapLayout::of(self.max_offset()) == self,
    {
    }

    pub broadcast proof fn of_max_offset(max_offset: u16)
        ensures
            #[trigger] HeapLayout::of(max_offset).spec_max_offset() == max_offset,
    {
    }
}

/// A heap root coordinate, meaningful only with a relation generation.
/// This is neither a server pointer nor a disk encoding.
#[derive(Clone, Copy, Debug, Eq, Hash, Ord, PartialEq, PartialOrd, Structural)]
pub struct RootTid {
    block: u32,
    offset: u16,
}

/// What validating the coordinate `(block, offset)` against `layout` gives.
pub open spec fn coordinate_error(block: u32, offset: u16, layout: HeapLayout) -> Option<
    IdentityError,
> {
    if block == u32::MAX {
        Some(IdentityError::InvalidBlock)
    } else if offset == 0 || offset > layout.max_offset() {
        Some(IdentityError::InvalidOffset)
    } else {
        None
    }
}

/// The position of a coordinate in block-major order.
pub open spec fn tid_key(block: u32, offset: u16) -> int {
    block as int * 0x1_0000 + offset as int
}

impl RootTid {
    #[verifier::type_invariant]
    closed spec fn inv(self) -> bool {
        self.block != u32::MAX && 1 <= self.offset <= MAX_LAYOUT
    }

    /// The root at `(block, offset)`.
    pub closed spec fn of(block: u32, offset: u16) -> RootTid {
        RootTid { block, offset }
    }

    pub closed spec fn spec_block(self) -> u32 {
        self.block
    }

    pub closed spec fn spec_offset(self) -> u16 {
        self.offset
    }

    pub open spec fn spec_key(self) -> u64 {
        tid_key(self.spec_block(), self.spec_offset()) as u64
    }

    /// Validates a root coordinate without dereferencing a heap page.
    ///
    /// # Errors
    /// Rejects the invalid block sentinel and offsets outside `layout`.
    pub fn new(block: u32, offset: u16, layout: HeapLayout) -> (result: Result<
        Self,
        IdentityError,
    >)
        ensures
            result == (match coordinate_error(block, offset, layout) {
                Some(error) => Err(error),
                None => Ok(RootTid::of(block, offset)),
            }),
    {
        proof {
            use_type_invariant(&layout);
        }
        if block == u32::MAX {
            return Err(IdentityError::InvalidBlock);
        }
        if offset > layout.max_offset() {
            return Err(IdentityError::InvalidOffset);
        }
        if offset == 0 {
            return Err(IdentityError::InvalidOffset);
        }
        Ok(RootTid { block, offset })
    }

    #[verifier::when_used_as_spec(spec_block)]
    pub fn block(self) -> (block: u32)
        ensures
            block == self.block(),
            block < u32::MAX,
    {
        proof {
            use_type_invariant(&self);
        }
        self.block
    }

    #[verifier::when_used_as_spec(spec_offset)]
    pub fn offset(self) -> (offset: u16)
        ensures
            offset == self.offset(),
            1 <= offset <= 512,
    {
        proof {
            use_type_invariant(&self);
        }
        self.offset
    }

    /// Returns an ordered logical key; this is not an on-disk representation.
    #[verifier::when_used_as_spec(spec_key)]
    pub fn key(self) -> (key: u64)
        ensures
            key == self.key(),
            key as int == tid_key(self.block(), self.offset()),
    {
        self.block as u64 * 0x1_0000 + self.offset as u64
    }

    pub broadcast proof fn of_parts(block: u32, offset: u16)
        ensures
            (#[trigger] RootTid::of(block, offset)).spec_block() == block,
            RootTid::of(block, offset).spec_offset() == offset,
    {
    }

    pub broadcast proof fn of_self(self)
        ensures
            #![trigger self.spec_block()]
            #![trigger self.spec_offset()]
            RootTid::of(self.spec_block(), self.spec_offset()) == self,
    {
    }

    /// Keys order roots by block first and offset second, and no two roots share one.
    pub proof fn key_order(self, other: RootTid)
        ensures
            self.key() < other.key() <==> (self.block() < other.block() || (self.block()
                == other.block() && self.offset() < other.offset())),
            self.key() == other.key() <==> self == other,
    {
    }
}

/// A fetched tuple coordinate, deliberately distinct from its root.
/// Construction alone does not certify snapshot visibility.
#[derive(Clone, Copy, Debug, Eq, PartialEq, Structural)]
pub struct VisibleTid(RootTid);

impl VisibleTid {
    /// The coordinate `(block, offset)` of a fetched tuple.
    pub closed spec fn of(block: u32, offset: u16) -> VisibleTid {
        VisibleTid(RootTid::of(block, offset))
    }

    pub closed spec fn spec_block(self) -> u32 {
        self.0.block()
    }

    pub closed spec fn spec_offset(self) -> u16 {
        self.0.offset()
    }

    /// Validates the coordinate reported by a heap fetch.
    ///
    /// # Errors
    /// Has the same domain errors as `RootTid::new`.
    pub fn new(block: u32, offset: u16, layout: HeapLayout) -> (result: Result<
        Self,
        IdentityError,
    >)
        ensures
            result == (match coordinate_error(block, offset, layout) {
                Some(error) => Err(error),
                None => Ok(VisibleTid::of(block, offset)),
            }),
            result matches Ok(tid) ==> tid.block() == block && tid.offset() == offset,
    {
        match RootTid::new(block, offset, layout) {
            Ok(tid) => Ok(VisibleTid(tid)),
            Err(error) => Err(error),
        }
    }

    #[verifier::when_used_as_spec(spec_block)]
    pub fn block(self) -> (block: u32)
        ensures
            block == self.block(),
    {
        self.0.block()
    }

    #[verifier::when_used_as_spec(spec_offset)]
    pub fn offset(self) -> (offset: u16)
        ensures
            offset == self.offset(),
    {
        self.0.offset()
    }
}

/// A source identifier within one relation generation.
#[derive(Clone, Copy, Debug, Eq, Hash, Ord, PartialEq, PartialOrd, Structural)]
pub struct SegmentId(u64);

impl SegmentId {
    #[verifier::type_invariant]
    closed spec fn inv(self) -> bool {
        self.0 != 0
    }

    /// The identifier with the given number.
    pub closed spec fn of(value: u64) -> SegmentId {
        SegmentId(value)
    }

    pub closed spec fn spec_get(self) -> u64 {
        self.0
    }

    /// Validates a nonzero identifier without allocation.
    ///
    /// # Errors
    /// Returns `ZeroIdentifier` for zero.
    pub fn new(value: u64) -> (result: Result<Self, IdentityError>)
        ensures
            result == (if value == 0 {
                Err(IdentityError::ZeroIdentifier)
            } else {
                Ok(SegmentId::of(value))
            }),
    {
        if value == 0 {
            return Err(IdentityError::ZeroIdentifier);
        }
        Ok(SegmentId(value))
    }

    #[verifier::when_used_as_spec(spec_get)]
    pub fn get(self) -> (value: u64)
        ensures
            value == self.get(),
            value != 0,
    {
        proof {
            use_type_invariant(&self);
        }
        self.0
    }

    /// Advances without wrapping or reusing a previous identifier.
    ///
    /// # Errors
    /// Returns `GenerationExhausted` at `u64::MAX`.
    pub fn next(self) -> (result: Result<Self, IdentityError>)
        ensures
            result == (if self.get() == u64::MAX {
                Err(IdentityError::GenerationExhausted)
            } else {
                Ok(SegmentId::of((self.get() + 1) as u64))
            }),
            result matches Ok(next) ==> next.get() > self.get(),
    {
        if self.0 == u64::MAX {
            return Err(IdentityError::GenerationExhausted);
        }
        SegmentId::new(self.0 + 1)
    }

    pub broadcast proof fn of_value(value: u64)
        ensures
            #[trigger] SegmentId::of(value).spec_get() == value,
    {
    }

    pub broadcast proof fn of_self(self)
        ensures
            SegmentId::of(#[trigger] self.spec_get()) == self,
    {
    }
}

/// A document incarnation; never inferred from a bare coordinate.
#[derive(Clone, Copy, Debug, Eq, Hash, Ord, PartialEq, PartialOrd, Structural)]
pub struct Incarnation(u64);

impl Incarnation {
    #[verifier::type_invariant]
    closed spec fn inv(self) -> bool {
        self.0 != 0
    }

    /// The identifier with the given number.
    pub closed spec fn of(value: u64) -> Incarnation {
        Incarnation(value)
    }

    pub closed spec fn spec_get(self) -> u64 {
        self.0
    }

    /// Validates a nonzero identifier without allocation.
    ///
    /// # Errors
    /// Returns `ZeroIdentifier` for zero.
    pub fn new(value: u64) -> (result: Result<Self, IdentityError>)
        ensures
            result == (if value == 0 {
                Err(IdentityError::ZeroIdentifier)
            } else {
                Ok(Incarnation::of(value))
            }),
    {
        if value == 0 {
            return Err(IdentityError::ZeroIdentifier);
        }
        Ok(Incarnation(value))
    }

    #[verifier::when_used_as_spec(spec_get)]
    pub fn get(self) -> (value: u64)
        ensures
            value == self.get(),
            value != 0,
    {
        proof {
            use_type_invariant(&self);
        }
        self.0
    }

    /// Advances without wrapping or reusing a previous identifier.
    ///
    /// # Errors
    /// Returns `GenerationExhausted` at `u64::MAX`.
    pub fn next(self) -> (result: Result<Self, IdentityError>)
        ensures
            result == (if self.get() == u64::MAX {
                Err(IdentityError::GenerationExhausted)
            } else {
                Ok(Incarnation::of((self.get() + 1) as u64))
            }),
            result matches Ok(next) ==> next.get() > self.get(),
    {
        if self.0 == u64::MAX {
            return Err(IdentityError::GenerationExhausted);
        }
        Incarnation::new(self.0 + 1)
    }

    pub broadcast proof fn of_value(value: u64)
        ensures
            #[trigger] Incarnation::of(value).spec_get() == value,
    {
    }

    pub broadcast proof fn of_self(self)
        ensures
            Incarnation::of(#[trigger] self.spec_get()) == self,
    {
    }
}

/// A checked generation counter; not a transaction timestamp.
#[derive(Clone, Copy, Debug, Eq, Hash, Ord, PartialEq, PartialOrd, Structural)]
pub struct Generation(u64);

impl Generation {
    #[verifier::type_invariant]
    closed spec fn inv(self) -> bool {
        self.0 != 0
    }

    /// The identifier with the given number.
    pub closed spec fn of(value: u64) -> Generation {
        Generation(value)
    }

    pub closed spec fn spec_get(self) -> u64 {
        self.0
    }

    /// Validates a nonzero identifier without allocation.
    ///
    /// # Errors
    /// Returns `ZeroIdentifier` for zero.
    pub fn new(value: u64) -> (result: Result<Self, IdentityError>)
        ensures
            result == (if value == 0 {
                Err(IdentityError::ZeroIdentifier)
            } else {
                Ok(Generation::of(value))
            }),
    {
        if value == 0 {
            return Err(IdentityError::ZeroIdentifier);
        }
        Ok(Generation(value))
    }

    #[verifier::when_used_as_spec(spec_get)]
    pub fn get(self) -> (value: u64)
        ensures
            value == self.get(),
            value != 0,
    {
        proof {
            use_type_invariant(&self);
        }
        self.0
    }

    /// Advances without wrapping or reusing a previous identifier.
    ///
    /// # Errors
    /// Returns `GenerationExhausted` at `u64::MAX`.
    pub fn next(self) -> (result: Result<Self, IdentityError>)
        ensures
            result == (if self.get() == u64::MAX {
                Err(IdentityError::GenerationExhausted)
            } else {
                Ok(Generation::of((self.get() + 1) as u64))
            }),
            result matches Ok(next) ==> next.get() > self.get(),
    {
        if self.0 == u64::MAX {
            return Err(IdentityError::GenerationExhausted);
        }
        Generation::new(self.0 + 1)
    }

    pub broadcast proof fn of_value(value: u64)
        ensures
            #[trigger] Generation::of(value).spec_get() == value,
    {
    }

    pub broadcast proof fn of_self(self)
        ensures
            Generation::of(#[trigger] self.spec_get()) == self,
    {
    }
}

/// A database-local physical relation locator and its durable generation.
/// Caller must provide the effective tablespace, not a zero default marker.
#[derive(Clone, Copy, Debug, Eq, Hash, PartialEq, Structural)]
pub struct RelationGeneration {
    database: u32,
    tablespace: u32,
    relfilenumber: u32,
    generation: Generation,
}

impl RelationGeneration {
    #[verifier::type_invariant]
    closed spec fn inv(self) -> bool {
        self.database != 0 && self.tablespace != 0 && self.relfilenumber != 0
    }

    /// The identity with the given parts.
    pub closed spec fn of(
        database: u32,
        tablespace: u32,
        relfilenumber: u32,
        generation: Generation,
    ) -> RelationGeneration {
        RelationGeneration { database, tablespace, relfilenumber, generation }
    }

    /// Validates a complete physical identity. No catalog lookup occurs.
    ///
    /// # Errors
    /// Returns `ZeroIdentifier` for a zero database, tablespace, or file number.
    pub fn new(
        database: u32,
        tablespace: u32,
        relfilenumber: u32,
        generation: Generation,
    ) -> (result: Result<Self, IdentityError>)
        ensures
            result == (if database == 0 || tablespace == 0 || relfilenumber == 0 {
                Err(IdentityError::ZeroIdentifier)
            } else {
                Ok(RelationGeneration::of(database, tablespace, relfilenumber, generation))
            }),
    {
        if database == 0 || tablespace == 0 || relfilenumber == 0 {
            return Err(IdentityError::ZeroIdentifier);
        }
        Ok(RelationGeneration { database, tablespace, relfilenumber, generation })
    }

    /// Two identities are equal only if every part is: a rewrite that changes
    /// the generation changes the identity.
    pub proof fn of_injective(
        left: (u32, u32, u32, Generation),
        right: (u32, u32, u32, Generation),
    )
        ensures
            RelationGeneration::of(left.0, left.1, left.2, left.3) == RelationGeneration::of(
                right.0,
                right.1,
                right.2,
                right.3,
            ) <==> left == right,
    {
    }
}

/// A source-owned document, not merely the current occupant of a heap slot.
#[derive(Clone, Copy, Debug, Eq, Hash, PartialEq, Structural)]
pub struct DocumentRef {
    pub relation: RelationGeneration,
    pub segment: SegmentId,
    pub incarnation: Incarnation,
    pub root: RootTid,
}

pub broadcast group group_identity {
    HeapLayout::of_max_offset,
    RootTid::of_parts,
    RootTid::of_self,
    SegmentId::of_value,
    SegmentId::of_self,
    Incarnation::of_value,
    Incarnation::of_self,
    Generation::of_value,
    Generation::of_self,
}

} // verus!
