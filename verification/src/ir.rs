//! The IR store: an arena (`Context`) that owns all regions, blocks and
//! operations, addressed through copyable handles, together with the
//! low-level splice and compare primitives that the builder sequences.

use vstd::prelude::*;

verus! {

/// Source-position metadata stamped onto operations as they are built.
#[derive(Clone, Copy, PartialEq, Eq, Structural, Debug)]
pub enum Location {
    /// The default location, used when no position information is available.
    Unknown,
    /// A concrete source position, identified by an opaque tag.
    Tagged(u64),
}

impl Location {
    /// The default location assigned to operations when none was chosen.
    pub fn unknown() -> (r: Location)
        ensures
            r == Location::Unknown,
    {
        Location::Unknown
    }
}

/// A handle to an operation owned by a `Context`.
#[derive(Clone, Copy, PartialEq, Eq, Structural, Debug)]
pub struct Operation {
    raw: usize,
}

/// A handle to a block owned by a `Context`.
#[derive(Clone, Copy, PartialEq, Eq, Structural, Debug)]
pub struct Block {
    raw: usize,
}

/// A handle to a region owned by a `Context`.
#[derive(Clone, Copy, PartialEq, Eq, Structural, Debug)]
pub struct Region {
    raw: usize,
}

/// A possibly-null handle to an interned type owned by a `Context`.
/// Type handles are compared structurally: by the interned content,
/// never by the handle itself.
#[derive(Clone, Copy, PartialEq, Eq, Structural, Debug)]
pub enum TypeHandle {
    /// The null handle.
    Null,
    /// A handle to the interned type at the given slot.
    Id(usize),
}

impl TypeHandle {
    /// Whether this is the null handle.
    pub fn is_null(&self) -> (r: bool)
        ensures
            r == (*self is Null),
    {
        match *self {
            TypeHandle::Null => true,
            TypeHandle::Id(_) => false,
        }
    }
}

struct OpData {
    name: u64,
    loc: Location,
    operands: Vec<u64>,
    parent: Option<Block>,
}

struct BlockData {
    ops: Vec<Operation>,
    parent: Option<Region>,
}

struct RegionData {
    blocks: Vec<Block>,
}

/// The root allocation authority: owns every region, block, operation and
/// interned type, and hands out handles into its own storage.
pub struct Context {
    ops: Vec<OpData>,
    blocks: Vec<BlockData>,
    regions: Vec<RegionData>,
    types: Vec<u64>,
}

impl Context {
    pub closed spec fn num_ops(self) -> nat {
        self.ops@.len()
    }

    pub closed spec fn num_blocks(self) -> nat {
        self.blocks@.len()
    }

    pub closed spec fn num_regions(self) -> nat {
        self.regions@.len()
    }

    pub closed spec fn num_types(self) -> nat {
        self.types@.len()
    }

    pub closed spec fn valid_op(self, o: Operation) -> bool {
        o.raw < self.ops@.len()
    }

    pub closed spec fn valid_block(self, b: Block) -> bool {
        b.raw < self.blocks@.len()
    }

    pub closed spec fn valid_region(self, r: Region) -> bool {
        r.raw < self.regions@.len()
    }

    /// Whether a slot number points into the intern table.
    pub closed spec fn valid_type_slot(self, i: usize) -> bool {
        i < self.types@.len()
    }

    /// A type handle is meaningful if it is null — the null handle exists in
    /// every arena — or points into the intern table.
    pub open spec fn valid_type(self, t: TypeHandle) -> bool {
        match t {
            TypeHandle::Null => true,
            TypeHandle::Id(i) => self.valid_type_slot(i),
        }
    }

    /// The interned content a non-null type handle denotes.
    pub closed spec fn type_content(self, t: TypeHandle) -> u64 {
        match t {
            TypeHandle::Null => 0,
            TypeHandle::Id(i) => self.types@[i as int],
        }
    }

    pub closed spec fn op_name(self, o: Operation) -> u64 {
        self.ops@[o.raw as int].name
    }

    pub closed spec fn op_loc(self, o: Operation) -> Location {
        self.ops@[o.raw as int].loc
    }

    pub closed spec fn op_operands(self, o: Operation) -> Seq<u64> {
        self.ops@[o.raw as int].operands@
    }

    /// The block an operation has been spliced into, if any.
    pub closed spec fn op_parent(self, o: Operation) -> Option<Block> {
        self.ops@[o.raw as int].parent
    }

    /// The operations of a block, in block order.
    pub closed spec fn ops_of(self, b: Block) -> Seq<Operation> {
        self.blocks@[b.raw as int].ops@
    }

    /// The region a block has been spliced into, if any.
    pub closed spec fn block_parent(self, b: Block) -> Option<Region> {
        self.blocks@[b.raw as int].parent
    }

    /// The blocks of a region, in region order.
    pub closed spec fn blocks_of(self, r: Region) -> Seq<Block> {
        self.regions@[r.raw as int].blocks@
    }

    spec fn block_entry_ok(self, b: int, i: int) -> bool {
        let o = self.blocks@[b].ops@[i];
        &&& (o.raw as int) < self.ops@.len()
        &&& self.ops@[o.raw as int].parent == Some(Block { raw: b as usize })
        &&& forall|j: int| 0 <= j < i ==> self.blocks@[b].ops@[j] != o
    }

    spec fn op_placement_ok(self, o: int) -> bool {
        match self.ops@[o].parent {
            Some(b) => {
                &&& (b.raw as int) < self.blocks@.len()
                &&& self.blocks@[b.raw as int].ops@.contains(Operation { raw: o as usize })
            },
            None => true,
        }
    }

    spec fn region_entry_ok(self, r: int, i: int) -> bool {
        let b = self.regions@[r].blocks@[i];
        &&& (b.raw as int) < self.blocks@.len()
        &&& self.blocks@[b.raw as int].parent == Some(Region { raw: r as usize })
        &&& forall|j: int| 0 <= j < i ==> self.regions@[r].blocks@[j] != b
    }

    spec fn block_placement_ok(self, b: int) -> bool {
        match self.blocks@[b].parent {
            Some(r) => {
                &&& (r.raw as int) < self.regions@.len()
                &&& self.regions@[r.raw as int].blocks@.contains(Block { raw: b as usize })
            },
            None => true,
        }
    }

    /// The arena's internal invariant: block membership and parent pointers
    /// agree, and no operation or block is spliced in twice.
    pub closed spec fn wf(self) -> bool {
        &&& forall|b: int, i: int|
            0 <= b < self.blocks@.len() && 0 <= i < self.blocks@[b].ops@.len()
                ==> #[trigger] self.block_entry_ok(b, i)
        &&& forall|o: int| 0 <= o < self.ops@.len() ==> #[trigger] self.op_placement_ok(o)
        &&& forall|r: int, i: int|
            0 <= r < self.regions@.len() && 0 <= i < self.regions@[r].blocks@.len()
                ==> #[trigger] self.region_entry_ok(r, i)
        &&& forall|b: int| 0 <= b < self.blocks@.len() ==> #[trigger] self.block_placement_ok(b)
    }

    /// What a well-formed arena guarantees of one block's operation list:
    /// the entries are valid, distinct, and point back at the block.
    pub proof fn lemma_block_ops_wf(self, b: Block)
        requires
            self.wf(),
            self.valid_block(b),
        ensures
            self.ops_of(b).no_duplicates(),
            forall|i: int|
                0 <= i < self.ops_of(b).len()
                    ==> self.valid_op(#[trigger] self.ops_of(b)[i]) && self.op_parent(
                    self.ops_of(b)[i],
                ) == Some(b),
    {
        assert forall|i: int| 0 <= i < self.ops_of(b).len() implies self.valid_op(
            #[trigger] self.ops_of(b)[i],
        ) && self.op_parent(self.ops_of(b)[i]) == Some(b) by {
            assert(self.block_entry_ok(b.raw as int, i));
        }
        assert forall|i: int, j: int|
            0 <= i < self.ops_of(b).len() && 0 <= j < self.ops_of(b).len() && i != j implies self.ops_of(
            b,
        )[i] != self.ops_of(b)[j] by {
            if i < j {
                assert(self.block_entry_ok(b.raw as int, j));
            } else {
                assert(self.block_entry_ok(b.raw as int, i));
            }
        }
    }

    /// What a well-formed arena guarantees of one region's block list.
    pub proof fn lemma_region_blocks_wf(self, r: Region)
        requires
            self.wf(),
            self.valid_region(r),
        ensures
            self.blocks_of(r).no_duplicates(),
            forall|i: int|
                0 <= i < self.blocks_of(r).len()
                    ==> self.valid_block(#[trigger] self.blocks_of(r)[i]) && self.block_parent(
                    self.blocks_of(r)[i],
                ) == Some(r),
    {
        assert forall|i: int| 0 <= i < self.blocks_of(r).len() implies self.valid_block(
            #[trigger] self.blocks_of(r)[i],
        ) && self.block_parent(self.blocks_of(r)[i]) == Some(r) by {
            assert(self.region_entry_ok(r.raw as int, i));
        }
        assert forall|i: int, j: int|
            0 <= i < self.blocks_of(r).len() && 0 <= j < self.blocks_of(r).len() && i
                != j implies self.blocks_of(r)[i] != self.blocks_of(r)[j] by {
            if i < j {
                assert(self.region_entry_ok(r.raw as int, j));
            } else {
                assert(self.region_entry_ok(r.raw as int, i));
            }
        }
    }

    /// An attached operation's parent block exists and lists the operation.
    pub proof fn lemma_op_parent_wf(self, o: Operation)
        requires
            self.wf(),
            self.valid_op(o),
            self.op_parent(o) is Some,
        ensures
            self.valid_block(self.op_parent(o).unwrap()),
            self.ops_of(self.op_parent(o).unwrap()).contains(o),
    {
        assert(self.op_placement_ok(o.raw as int));
    }

    /// An attached block's parent region exists and lists the block.
    pub proof fn lemma_block_parent_wf(self, b: Block)
        requires
            self.wf(),
            self.valid_block(b),
            self.block_parent(b) is Some,
        ensures
            self.valid_region(self.block_parent(b).unwrap()),
            self.blocks_of(self.block_parent(b).unwrap()).contains(b),
    {
        assert(self.block_placement_ok(b.raw as int));
    }

    /// An operation that has not been spliced anywhere is in no block's list.
    pub proof fn lemma_unplaced_op_absent(self, o: Operation, b: Block)
        requires
            self.wf(),
            self.valid_block(b),
            self.op_parent(o) !== Some(b),
        ensures
            !self.ops_of(b).contains(o),
    {
        if self.ops_of(b).contains(o) {
            let i = choose|i: int| 0 <= i < self.ops_of(b).len() && self.ops_of(b)[i] == o;
            assert(self.block_entry_ok(b.raw as int, i));
        }
    }

    /// A block that has not been spliced anywhere is in no region's list.
    pub proof fn lemma_unplaced_block_absent(self, b: Block, r: Region)
        requires
            self.wf(),
            self.valid_region(r),
            self.block_parent(b) !== Some(r),
        ensures
            !self.blocks_of(r).contains(b),
    {
        if self.blocks_of(r).contains(b) {
            let i = choose|i: int| 0 <= i < self.blocks_of(r).len() && self.blocks_of(r)[i] == b;
            assert(self.region_entry_ok(r.raw as int, i));
        }
    }

    /// Growing the arena by fresh entries — operations not yet attached to a
    /// block, blocks with no operations and no region, regions with no
    /// blocks — preserves the invariant, whichever tables grew.
    proof fn lemma_extend_preserves_wf(self, grown: Context)
        requires
            self.wf(),
            self.ops@.len() <= grown.ops@.len(),
            forall|o: int| 0 <= o < self.ops@.len() ==> grown.ops@[o] == self.ops@[o],
            forall|o: int|
                self.ops@.len() <= o < grown.ops@.len() ==> (#[trigger] grown.ops@[o].parent)
                    is None,
            self.blocks@.len() <= grown.blocks@.len(),
            forall|b: int| 0 <= b < self.blocks@.len() ==> grown.blocks@[b] == self.blocks@[b],
            forall|b: int|
                self.blocks@.len() <= b < grown.blocks@.len() ==> (#[trigger] grown.blocks@[b].ops@)
                    == Seq::<Operation>::empty() && grown.blocks@[b].parent is None,
            self.regions@.len() <= grown.regions@.len(),
            forall|r: int| 0 <= r < self.regions@.len() ==> grown.regions@[r] == self.regions@[r],
            forall|r: int|
                self.regions@.len() <= r < grown.regions@.len() ==> (
                #[trigger] grown.regions@[r].blocks@) == Seq::<Block>::empty(),
        ensures
            grown.wf(),
    {
        assert forall|b: int, i: int|
            0 <= b < grown.blocks@.len() && 0 <= i
                < grown.blocks@[b].ops@.len() implies #[trigger] grown.block_entry_ok(b, i) by {
            assert(b < self.blocks@.len());
            assert(self.block_entry_ok(b, i));
        }
        assert forall|o: int| 0 <= o < grown.ops@.len() implies #[trigger] grown.op_placement_ok(
            o,
        ) by {
            if o < self.ops@.len() {
                assert(self.op_placement_ok(o));
            }
        }
        assert forall|r: int, i: int|
            0 <= r < grown.regions@.len() && 0 <= i
                < grown.regions@[r].blocks@.len() implies #[trigger] grown.region_entry_ok(
            r,
            i,
        ) by {
            assert(r < self.regions@.len());
            assert(self.region_entry_ok(r, i));
        }
        assert forall|b: int|
            0 <= b < grown.blocks@.len() implies #[trigger] grown.block_placement_ok(b) by {
            if b < self.blocks@.len() {
                assert(self.block_placement_ok(b));
                match self.blocks@[b].parent {
                    Some(r) => {
                        assert(grown.regions@[r.raw as int] == self.regions@[r.raw as int]);
                    },
                    None => {},
                }
            } else {
                assert(grown.blocks@[b].ops@ == Seq::<Operation>::empty());
            }
        }
    }

    /// Create an empty arena.
    pub fn new() -> (r: Context)
        ensures
            r.wf(),
            r.num_ops() == 0,
            r.num_blocks() == 0,
            r.num_regions() == 0,
            r.num_types() == 0,
    {
        Context { ops: Vec::new(), blocks: Vec::new(), regions: Vec::new(), types: Vec::new() }
    }

    /// Create a new block with zero operations, not yet attached to any region.
    pub fn create_block(&mut self) -> (r: Block)
        requires
            old(self).wf(),
        ensures
            final(self).wf(),
            !old(self).valid_block(r),
            final(self).valid_block(r),
            final(self).num_blocks() == old(self).num_blocks() + 1,
            final(self).num_ops() == old(self).num_ops(),
            final(self).num_regions() == old(self).num_regions(),
            final(self).num_types() == old(self).num_types(),
            final(self).ops_of(r) == Seq::<Operation>::empty(),
            final(self).block_parent(r) is None,
            same_blocks(*final(self), *old(self)),
            same_ops(*final(self), *old(self)),
            same_regions(*final(self), *old(self)),
            same_types(*final(self), *old(self)),
    {
        let r = Block { raw: self.blocks.len() };
        self.blocks.push(BlockData { ops: Vec::new(), parent: None });
        proof {
            old(self).lemma_extend_preserves_wf(*self);
        }
        r
    }

    /// Create a new region with zero blocks.
    pub fn create_region(&mut self) -> (r: Region)
        requires
            old(self).wf(),
        ensures
            final(self).wf(),
            !old(self).valid_region(r),
            final(self).valid_region(r),
            final(self).num_regions() == old(self).num_regions() + 1,
            final(self).num_ops() == old(self).num_ops(),
            final(self).num_blocks() == old(self).num_blocks(),
            final(self).num_types() == old(self).num_types(),
            final(self).blocks_of(r) == Seq::<Block>::empty(),
            same_blocks(*final(self), *old(self)),
            same_ops(*final(self), *old(self)),
            same_regions(*final(self), *old(self)),
            same_types(*final(self), *old(self)),
    {
        let r = Region { raw: self.regions.len() };
        self.regions.push(RegionData { blocks: Vec::new() });
        proof {
            old(self).lemma_extend_preserves_wf(*self);
        }
        r
    }

    /// Intern a type with the given content and hand out a non-null handle.
    /// Two handles obtained from equal content compare structurally equal.
    pub fn make_type(&mut self, content: u64) -> (t: TypeHandle)
        requires
            old(self).wf(),
        ensures
            final(self).wf(),
            final(self).valid_type(t),
            !(t is Null),
            final(self).type_content(t) == content,
            final(self).num_types() == old(self).num_types() + 1,
            final(self).num_ops() == old(self).num_ops(),
            final(self).num_blocks() == old(self).num_blocks(),
            final(self).num_regions() == old(self).num_regions(),
            same_blocks(*final(self), *old(self)),
            same_ops(*final(self), *old(self)),
            same_regions(*final(self), *old(self)),
            same_types(*final(self), *old(self)),
    {
        let t = TypeHandle::Id(self.types.len());
        self.types.push(content);
        proof {
            old(self).lemma_extend_preserves_wf(*self);
        }
        t
    }

    /// Whether two type handles denote the same type: both null, or both
    /// non-null with equal interned content. A null handle never equals a
    /// non-null one, and two independently interned handles with the same
    /// content compare equal.
    pub open spec fn type_handles_equal(self, a: TypeHandle, b: TypeHandle) -> bool {
        match (a, b) {
            (TypeHandle::Null, TypeHandle::Null) => true,
            (TypeHandle::Id(_), TypeHandle::Id(_)) => self.type_content(a)
                == self.type_content(b),
            _ => false,
        }
    }

    /// Structural equality for type handles.
    pub fn type_eq(&self, a: TypeHandle, b: TypeHandle) -> (r: bool)
        requires
            self.valid_type(a),
            self.valid_type(b),
        ensures
            r == self.type_handles_equal(a, b),
    {
        match (a, b) {
            (TypeHandle::Null, TypeHandle::Null) => true,
            (TypeHandle::Id(i), TypeHandle::Id(j)) => self.types[i] == self.types[j],
            _ => false,
        }
    }

    /// Equality for possibly-null block handles: two empty handles are equal,
    /// an empty handle never equals a non-empty one, and two non-empty
    /// handles are equal exactly when they denote the same block.
    pub fn block_eq(&self, a: Option<Block>, b: Option<Block>) -> (r: bool)
        ensures
            r == (a == b),
    {
        match (a, b) {
            (None, None) => true,
            (Some(x), Some(y)) => x == y,
            _ => false,
        }
    }

    /// The region that owns `b`, if `b` has been attached to one.
    pub fn parent_region_of(&self, b: Block) -> (r: Option<Region>)
        requires
            self.valid_block(b),
        ensures
            r == self.block_parent(b),
    {
        self.blocks[b.raw].parent
    }

    /// The block that owns `o`, if `o` has been spliced into one.
    pub fn parent_block_of(&self, o: Operation) -> (r: Option<Block>)
        requires
            self.valid_op(o),
        ensures
            r == self.op_parent(o),
    {
        self.ops[o.raw].parent
    }

    /// The name an operation was assembled with.
    pub fn operation_name(&self, o: Operation) -> (r: u64)
        requires
            self.valid_op(o),
        ensures
            r == self.op_name(o),
    {
        self.ops[o.raw].name
    }

    /// The location an operation was assembled with.
    pub fn operation_loc(&self, o: Operation) -> (r: Location)
        requires
            self.valid_op(o),
        ensures
            r == self.op_loc(o),
    {
        self.ops[o.raw].loc
    }

    /// A copy of an operation's operand list.
    pub fn operation_operands(&self, o: Operation) -> (r: Vec<u64>)
        requires
            self.valid_op(o),
        ensures
            r@ == self.op_operands(o),
    {
        let src = &self.ops[o.raw].operands;
        let mut out: Vec<u64> = Vec::new();
        let mut i: usize = 0;
        while i < src.len()
            invariant
                i <= src@.len(),
                out@ == src@.take(i as int),
                src@ == self.op_operands(o),
            decreases src@.len() - i,
        {
            out.push(src[i]);
            proof {
                assert(out@ =~= src@.take(i as int + 1));
            }
            i = i + 1;
        }
        proof {
            assert(out@ =~= src@);
        }
        out
    }

    /// A copy of a block's operation list, in block order.
    pub fn block_operations(&self, b: Block) -> (r: Vec<Operation>)
        requires
            self.valid_block(b),
        ensures
            r@ == self.ops_of(b),
    {
        let src = &self.blocks[b.raw].ops;
        let mut out: Vec<Operation> = Vec::new();
        let mut i: usize = 0;
        while i < src.len()
            invariant
                i <= src@.len(),
                out@ == src@.take(i as int),
                src@ == self.ops_of(b),
            decreases src@.len() - i,
        {
            out.push(src[i]);
            proof {
                assert(out@ =~= src@.take(i as int + 1));
            }
            i = i + 1;
        }
        proof {
            assert(out@ =~= src@);
        }
        out
    }

    /// A copy of a region's block list, in region order.
    pub fn region_blocks(&self, r: Region) -> (out: Vec<Block>)
        requires
            self.valid_region(r),
        ensures
            out@ == self.blocks_of(r),
    {
        let src = &self.regions[r.raw].blocks;
        let mut out: Vec<Block> = Vec::new();
        let mut i: usize = 0;
        while i < src.len()
            invariant
                i <= src@.len(),
                out@ == src@.take(i as int),
                src@ == self.blocks_of(r),
            decreases src@.len() - i,
        {
            out.push(src[i]);
            proof {
                assert(out@ =~= src@.take(i as int + 1));
            }
            i = i + 1;
        }
        proof {
            assert(out@ =~= src@);
        }
        out
    }
}

/// Where `op` lands in a block whose operations are `ops`, when spliced
/// "after" a reference: index 0 with the empty sentinel (before the block's
/// first operation), directly after the reference otherwise.
pub open spec fn splice_after_index(ops: Seq<Operation>, reference: Option<Operation>) -> int {
    match reference {
        None => 0,
        Some(ro) => ops.index_of_first(ro).unwrap() + 1,
    }
}

/// Where `op` lands when spliced "before" a reference: at the end with the
/// empty sentinel (after the block's last operation), directly before the
/// reference otherwise.
pub open spec fn splice_before_index(ops: Seq<Operation>, reference: Option<Operation>) -> int {
    match reference {
        None => ops.len() as int,
        Some(ro) => ops.index_of_first(ro).unwrap(),
    }
}

/// `s.insert(i, x)` holds exactly the members of `s` plus `x`.
pub proof fn lemma_insert_contains<T>(s: Seq<T>, i: int, x: T, y: T)
    requires
        0 <= i <= s.len(),
    ensures
        s.insert(i, x).contains(y) <==> (y == x || s.contains(y)),
{
    s.insert_ensures(i, x);
    if s.contains(y) {
        let k = choose|k: int| 0 <= k < s.len() && s[k] == y;
        if k < i {
            assert(s.insert(i, x)[k] == y);
        } else {
            assert(s.insert(i, x)[k + 1] == y);
        }
    }
    if s.insert(i, x).contains(y) {
        let k = choose|k: int| 0 <= k < s.insert(i, x).len() && s.insert(i, x)[k] == y;
        if k < i {
            assert(s[k] == y);
        } else if k == i {
            assert(y == x);
        } else {
            assert(s[k - 1] == y);
        }
    }
}

/// The first position of `needle` in `v`, as `Seq::index_of_first` gives it.
fn first_index_op(v: &Vec<Operation>, needle: Operation) -> (idx: usize)
    requires
        v@.contains(needle),
    ensures
        idx as int == v@.index_of_first(needle).unwrap(),
        0 <= idx < v@.len(),
        v@[idx as int] == needle,
        forall|j: int| 0 <= j < idx ==> v@[j] != needle,
{
    let mut i: usize = 0;
    while i < v.len() && v[i] != needle
        invariant
            i <= v@.len(),
            v@.contains(needle),
            forall|j: int| 0 <= j < i ==> v@[j] != needle,
        decreases v@.len() - i,
    {
        i = i + 1;
    }
    proof {
        if i >= v@.len() {
            let k = choose|k: int| 0 <= k < v@.len() && v@[k] == needle;
            assert(v@[k] != needle);
        }
        v@.index_of_first_ensures(needle);
        let f = v@.index_of_first(needle).unwrap();
        if f < i {
            assert(v@[f] != needle);
        }
        if f > i {
            assert(v@[i as int] != needle);
        }
    }
    i
}

/// The first position of `needle` in `v`, as `Seq::index_of_first` gives it.
fn first_index_block(v: &Vec<Block>, needle: Block) -> (idx: usize)
    requires
        v@.contains(needle),
    ensures
        idx as int == v@.index_of_first(needle).unwrap(),
        0 <= idx < v@.len(),
        v@[idx as int] == needle,
        forall|j: int| 0 <= j < idx ==> v@[j] != needle,
{
    let mut i: usize = 0;
    while i < v.len() && v[i] != needle
        invariant
            i <= v@.len(),
            v@.contains(needle),
            forall|j: int| 0 <= j < i ==> v@[j] != needle,
        decreases v@.len() - i,
    {
        i = i + 1;
    }
    proof {
        if i >= v@.len() {
            let k = choose|k: int| 0 <= k < v@.len() && v@[k] == needle;
            assert(v@[k] != needle);
        }
        v@.index_of_first_ensures(needle);
        let f = v@.index_of_first(needle).unwrap();
        if f < i {
            assert(v@[f] != needle);
        }
        if f > i {
            assert(v@[i as int] != needle);
        }
    }
    i
}

/// Operations of `older` all exist unchanged in `newer` (splice targets aside:
/// parent pointers are covered separately).
pub open spec fn same_op_data(newer: Context, older: Context) -> bool {
    forall|o: Operation| #[trigger]
        older.valid_op(o) ==> {
            &&& newer.valid_op(o)
            &&& newer.op_name(o) == older.op_name(o)
            &&& newer.op_loc(o) == older.op_loc(o)
            &&& newer.op_operands(o) == older.op_operands(o)
        }
}

/// No operation's parent pointer differs between the two arenas, except
/// possibly `moved`'s.
pub open spec fn same_op_parents_except(newer: Context, older: Context, moved: Operation) -> bool {
    forall|o: Operation| #[trigger]
        older.valid_op(o) && o != moved ==> newer.op_parent(o) == older.op_parent(o)
}

/// All of `older`'s operations exist in `newer` with unchanged data and
/// unchanged parent pointers.
pub open spec fn same_ops(newer: Context, older: Context) -> bool {
    &&& same_op_data(newer, older)
    &&& forall|o: Operation| #[trigger]
        older.valid_op(o) ==> newer.op_parent(o) == older.op_parent(o)
}

/// Every block of `older` still exists in `newer`, and no block's operation
/// list differs between the two, except possibly `changed`'s.
pub open spec fn same_block_lists_except(newer: Context, older: Context, changed: Block) -> bool {
    forall|b: Block| #[trigger]
        older.valid_block(b) ==> {
            &&& newer.valid_block(b)
            &&& (b != changed ==> newer.ops_of(b) == older.ops_of(b))
        }
}

/// No block's parent pointer differs between the two arenas, except possibly
/// `moved`'s.
pub open spec fn same_block_parents_except(newer: Context, older: Context, moved: Block) -> bool {
    forall|b: Block| #[trigger]
        older.valid_block(b) && b != moved ==> newer.block_parent(b) == older.block_parent(b)
}

/// All of `older`'s blocks exist in `newer` with unchanged contents and
/// parent, except that block `changed`'s operation list may differ.
pub open spec fn same_blocks_except_ops(newer: Context, older: Context, changed: Block) -> bool {
    &&& same_block_lists_except(newer, older, changed)
    &&& forall|b: Block| #[trigger]
        older.valid_block(b) ==> newer.block_parent(b) == older.block_parent(b)
}

/// All of `older`'s blocks exist in `newer`, entirely unchanged.
pub open spec fn same_blocks(newer: Context, older: Context) -> bool {
    &&& forall|b: Block| #[trigger]
        older.valid_block(b) ==> {
            &&& newer.valid_block(b)
            &&& newer.block_parent(b) == older.block_parent(b)
            &&& newer.ops_of(b) == older.ops_of(b)
        }
}

/// All of `older`'s regions exist in `newer` with unchanged block lists,
/// except that region `changed`'s list may differ.
pub open spec fn same_regions_except(newer: Context, older: Context, changed: Region) -> bool {
    &&& forall|r: Region| #[trigger]
        older.valid_region(r) ==> {
            &&& newer.valid_region(r)
            &&& (r != changed ==> newer.blocks_of(r) == older.blocks_of(r))
        }
}

/// All of `older`'s regions exist in `newer`, entirely unchanged.
pub open spec fn same_regions(newer: Context, older: Context) -> bool {
    &&& forall|r: Region| #[trigger]
        older.valid_region(r) ==> {
            &&& newer.valid_region(r)
            &&& newer.blocks_of(r) == older.blocks_of(r)
        }
}

/// All of `older`'s interned types exist in `newer` with unchanged content.
pub open spec fn same_types(newer: Context, older: Context) -> bool {
    &&& forall|t: TypeHandle| #[trigger]
        older.valid_type(t) ==> newer.valid_type(t) && newer.type_content(t)
            == older.type_content(t)
}

impl Context {
    /// Splice `op` into block `b` at position `idx`, shifting the rest right.
    fn splice_op_at(&mut self, b: Block, idx: usize, op: Operation)
        requires
            old(self).wf(),
            old(self).valid_block(b),
            old(self).valid_op(op),
            old(self).op_parent(op) is None,
            idx <= old(self).ops_of(b).len(),
        ensures
            final(self).wf(),
            final(self).ops_of(b) == old(self).ops_of(b).insert(idx as int, op),
            final(self).op_parent(op) == Some(b),
            final(self).num_ops() == old(self).num_ops(),
            final(self).num_blocks() == old(self).num_blocks(),
            final(self).num_regions() == old(self).num_regions(),
            final(self).num_types() == old(self).num_types(),
            same_op_data(*final(self), *old(self)),
            same_op_parents_except(*final(self), *old(self), op),
            same_blocks_except_ops(*final(self), *old(self), b),
            same_regions(*final(self), *old(self)),
            same_types(*final(self), *old(self)),
    {
        proof {
            old(self).lemma_unplaced_op_absent(op, b);
        }
        self.blocks[b.raw].ops.insert(idx, op);
        self.ops[op.raw].parent = Some(b);
        proof {
            let c0 = *old(self);
            let bi = b.raw as int;
            let oi = op.raw as int;
            let ops0 = c0.blocks@[bi].ops@;
            let ops1 = self.blocks@[bi].ops@;
            ops0.insert_ensures(idx as int, op);
            assert(ops1 == ops0.insert(idx as int, op));
            assert forall|b2: int, i: int|
                0 <= b2 < self.blocks@.len() && 0 <= i
                    < self.blocks@[b2].ops@.len() implies #[trigger] self.block_entry_ok(b2, i) by {
                if b2 != bi {
                    assert(c0.block_entry_ok(b2, i));
                    let o2 = c0.blocks@[b2].ops@[i];
                    assert(o2.raw != op.raw);
                } else {
                    if i < idx {
                        assert(ops1[i] == ops0[i]);
                        assert(c0.block_entry_ok(bi, i));
                        assert(ops0[i].raw != op.raw);
                        assert forall|j: int| 0 <= j < i implies ops1[j] != ops1[i] by {
                            assert(ops1[j] == ops0[j]);
                        }
                    } else if i == idx {
                        assert(ops1[i] == op);
                        assert forall|j: int| 0 <= j < i implies ops1[j] != ops1[i] by {
                            assert(ops1[j] == ops0[j]);
                            assert(!ops0.contains(op));
                        }
                    } else {
                        assert(ops1[i] == ops0[i - 1]);
                        assert(c0.block_entry_ok(bi, i - 1));
                        assert(ops0[i - 1].raw != op.raw);
                        assert forall|j: int| 0 <= j < i implies ops1[j] != ops1[i] by {
                            if j < idx {
                                assert(ops1[j] == ops0[j]);
                            } else if j == idx {
                                assert(ops1[j] == op);
                                assert(!ops0.contains(op));
                                assert(ops0[i - 1] != op);
                            } else {
                                assert(ops1[j] == ops0[j - 1]);
                            }
                        }
                    }
                }
            }
            assert forall|o: int| 0 <= o < self.ops@.len() implies #[trigger] self.op_placement_ok(
                o,
            ) by {
                if o == oi {
                    assert(ops1[idx as int] == op);
                    assert(ops1.contains(op));
                } else {
                    assert(c0.op_placement_ok(o));
                    match c0.ops@[o].parent {
                        Some(b2) => {
                            if b2.raw as int == bi {
                                lemma_insert_contains(
                                    ops0,
                                    idx as int,
                                    op,
                                    Operation { raw: o as usize },
                                );
                            }
                        },
                        None => {},
                    }
                }
            }
            assert forall|r2: int, i: int|
                0 <= r2 < self.regions@.len() && 0 <= i
                    < self.regions@[r2].blocks@.len() implies #[trigger] self.region_entry_ok(
                r2,
                i,
            ) by {
                assert(c0.region_entry_ok(r2, i));
            }
            assert forall|b2: int|
                0 <= b2 < self.blocks@.len() implies #[trigger] self.block_placement_ok(b2) by {
                assert(c0.block_placement_ok(b2));
                match c0.blocks@[b2].parent {
                    Some(_) => {
                        assert(self.blocks@[b2].parent == c0.blocks@[b2].parent);
                    },
                    None => {},
                }
            }
        }
    }

    /// Splice `op` into `b` immediately after `reference`; the empty sentinel
    /// (`None`) means "before the block's first operation".
    pub fn insert_operation_after(&mut self, b: Block, reference: Option<Operation>, op: Operation)
        requires
            old(self).wf(),
            old(self).valid_block(b),
            old(self).valid_op(op),
            old(self).op_parent(op) is None,
            reference is Some ==> old(self).ops_of(b).contains(reference.unwrap()),
        ensures
            final(self).wf(),
            final(self).ops_of(b) == old(self).ops_of(b).insert(
                splice_after_index(old(self).ops_of(b), reference),
                op,
            ),
            final(self).op_parent(op) == Some(b),
            final(self).num_ops() == old(self).num_ops(),
            final(self).num_blocks() == old(self).num_blocks(),
            final(self).num_regions() == old(self).num_regions(),
            final(self).num_types() == old(self).num_types(),
            same_op_data(*final(self), *old(self)),
            same_op_parents_except(*final(self), *old(self), op),
            same_blocks_except_ops(*final(self), *old(self), b),
            same_regions(*final(self), *old(self)),
            same_types(*final(self), *old(self)),
    {
        let idx: usize = match reference {
            None => 0,
            Some(ro) => {
                let n = self.blocks[b.raw].ops.len();
                let k = first_index_op(&self.blocks[b.raw].ops, ro);
                proof {
                    assert(k < n);
                }
                k + 1
            },
        };
        self.splice_op_at(b, idx, op);
    }

    /// Splice `op` into `b` immediately before `reference`; the empty sentinel
    /// (`None`) means "after the block's last operation".
    pub fn insert_operation_before(&mut self, b: Block, reference: Option<Operation>, op: Operation)
        requires
            old(self).wf(),
            old(self).valid_block(b),
            old(self).valid_op(op),
            old(self).op_parent(op) is None,
            reference is Some ==> old(self).ops_of(b).contains(reference.unwrap()),
        ensures
            final(self).wf(),
            final(self).ops_of(b) == old(self).ops_of(b).insert(
                splice_before_index(old(self).ops_of(b), reference),
                op,
            ),
            final(self).op_parent(op) == Some(b),
            final(self).num_ops() == old(self).num_ops(),
            final(self).num_blocks() == old(self).num_blocks(),
            final(self).num_regions() == old(self).num_regions(),
            final(self).num_types() == old(self).num_types(),
            same_op_data(*final(self), *old(self)),
            same_op_parents_except(*final(self), *old(self), op),
            same_blocks_except_ops(*final(self), *old(self), b),
            same_regions(*final(self), *old(self)),
            same_types(*final(self), *old(self)),
    {
        let idx: usize = match reference {
            None => self.blocks[b.raw].ops.len(),
            Some(ro) => first_index_op(&self.blocks[b.raw].ops, ro),
        };
        self.splice_op_at(b, idx, op);
    }

    /// Splice block `nb` into region `r` at position `idx`.
    fn splice_block_at(&mut self, r: Region, idx: usize, nb: Block)
        requires
            old(self).wf(),
            old(self).valid_region(r),
            old(self).valid_block(nb),
            old(self).block_parent(nb) is None,
            idx <= old(self).blocks_of(r).len(),
        ensures
            final(self).wf(),
            final(self).blocks_of(r) == old(self).blocks_of(r).insert(idx as int, nb),
            final(self).block_parent(nb) == Some(r),
            final(self).num_ops() == old(self).num_ops(),
            final(self).num_blocks() == old(self).num_blocks(),
            final(self).num_regions() == old(self).num_regions(),
            final(self).num_types() == old(self).num_types(),
            same_ops(*final(self), *old(self)),
            same_block_lists_except(*final(self), *old(self), nb),
            same_block_parents_except(*final(self), *old(self), nb),
            forall|b2: Block| #[trigger]
                old(self).valid_block(b2) ==> final(self).ops_of(b2) == old(self).ops_of(b2),
            same_regions_except(*final(self), *old(self), r),
            same_types(*final(self), *old(self)),
    {
        proof {
            old(self).lemma_unplaced_block_absent(nb, r);
        }
        self.regions[r.raw].blocks.insert(idx, nb);
        self.blocks[nb.raw].parent = Some(r);
        proof {
            let c0 = *old(self);
            let ri = r.raw as int;
            let ni = nb.raw as int;
            let bl0 = c0.regions@[ri].blocks@;
            let bl1 = self.regions@[ri].blocks@;
            bl0.insert_ensures(idx as int, nb);
            assert(bl1 == bl0.insert(idx as int, nb));
            assert forall|b2: int, i: int|
                0 <= b2 < self.blocks@.len() && 0 <= i
                    < self.blocks@[b2].ops@.len() implies #[trigger] self.block_entry_ok(b2, i) by {
                assert(c0.block_entry_ok(b2, i));
            }
            assert forall|o: int| 0 <= o < self.ops@.len() implies #[trigger] self.op_placement_ok(
                o,
            ) by {
                assert(c0.op_placement_ok(o));
                match c0.ops@[o].parent {
                    Some(b2) => {
                        assert(self.blocks@[b2.raw as int].ops@ == c0.blocks@[b2.raw as int].ops@);
                    },
                    None => {},
                }
            }
            assert forall|r2: int, i: int|
                0 <= r2 < self.regions@.len() && 0 <= i
                    < self.regions@[r2].blocks@.len() implies #[trigger] self.region_entry_ok(
                r2,
                i,
            ) by {
                if r2 != ri {
                    assert(c0.region_entry_ok(r2, i));
                    let b2 = c0.regions@[r2].blocks@[i];
                    assert(b2.raw != nb.raw);
                } else {
                    if i < idx {
                        assert(bl1[i] == bl0[i]);
                        assert(c0.region_entry_ok(ri, i));
                        assert(bl0[i].raw != nb.raw);
                        assert forall|j: int| 0 <= j < i implies bl1[j] != bl1[i] by {
                            assert(bl1[j] == bl0[j]);
                        }
                    } else if i == idx {
                        assert(bl1[i] == nb);
                        assert forall|j: int| 0 <= j < i implies bl1[j] != bl1[i] by {
                            assert(bl1[j] == bl0[j]);
                            assert(!bl0.contains(nb));
                        }
                    } else {
                        assert(bl1[i] == bl0[i - 1]);
                        assert(c0.region_entry_ok(ri, i - 1));
                        assert(bl0[i - 1].raw != nb.raw);
                        assert forall|j: int| 0 <= j < i implies bl1[j] != bl1[i] by {
                            if j < idx {
                                assert(bl1[j] == bl0[j]);
                            } else if j == idx {
                                assert(bl1[j] == nb);
                                assert(!bl0.contains(nb));
                                assert(bl0[i - 1] != nb);
                            } else {
                                assert(bl1[j] == bl0[j - 1]);
                            }
                        }
                    }
                }
            }
            assert forall|b2: int|
                0 <= b2 < self.blocks@.len() implies #[trigger] self.block_placement_ok(b2) by {
                if b2 == ni {
                    assert(bl1[idx as int] == nb);
                    assert(bl1.contains(nb));
                } else {
                    assert(c0.block_placement_ok(b2));
                    match c0.blocks@[b2].parent {
                        Some(r2) => {
                            if r2.raw as int == ri {
                                lemma_insert_contains(
                                    bl0,
                                    idx as int,
                                    nb,
                                    Block { raw: b2 as usize },
                                );
                            }
                        },
                        None => {},
                    }
                }
            }
        }
    }

    /// Splice `nb` into `r` immediately after the block `after`.
    pub fn insert_block_after(&mut self, r: Region, after: Block, nb: Block)
        requires
            old(self).wf(),
            old(self).valid_region(r),
            old(self).valid_block(nb),
            old(self).block_parent(nb) is None,
            old(self).blocks_of(r).contains(after),
        ensures
            final(self).wf(),
            final(self).blocks_of(r) == old(self).blocks_of(r).insert(
                old(self).blocks_of(r).index_of_first(after).unwrap() + 1,
                nb,
            ),
            final(self).block_parent(nb) == Some(r),
            final(self).num_ops() == old(self).num_ops(),
            final(self).num_blocks() == old(self).num_blocks(),
            final(self).num_regions() == old(self).num_regions(),
            final(self).num_types() == old(self).num_types(),
            same_ops(*final(self), *old(self)),
            same_block_lists_except(*final(self), *old(self), nb),
            same_block_parents_except(*final(self), *old(self), nb),
            forall|b2: Block| #[trigger]
                old(self).valid_block(b2) ==> final(self).ops_of(b2) == old(self).ops_of(b2),
            same_regions_except(*final(self), *old(self), r),
            same_types(*final(self), *old(self)),
    {
        let n = self.regions[r.raw].blocks.len();
        let k = first_index_block(&self.regions[r.raw].blocks, after);
        proof {
            assert(k < n);
        }
        self.splice_block_at(r, k + 1, nb);
    }

    /// Attach `nb` at the end of region `r`'s block list.
    pub fn append_block(&mut self, r: Region, nb: Block)
        requires
            old(self).wf(),
            old(self).valid_region(r),
            old(self).valid_block(nb),
            old(self).block_parent(nb) is None,
        ensures
            final(self).wf(),
            final(self).blocks_of(r) == old(self).blocks_of(r).push(nb),
            final(self).block_parent(nb) == Some(r),
            final(self).num_ops() == old(self).num_ops(),
            final(self).num_blocks() == old(self).num_blocks(),
            final(self).num_regions() == old(self).num_regions(),
            final(self).num_types() == old(self).num_types(),
            same_ops(*final(self), *old(self)),
            same_block_lists_except(*final(self), *old(self), nb),
            same_block_parents_except(*final(self), *old(self), nb),
            forall|b2: Block| #[trigger]
                old(self).valid_block(b2) ==> final(self).ops_of(b2) == old(self).ops_of(b2),
            same_regions_except(*final(self), *old(self), r),
            same_types(*final(self), *old(self)),
    {
        let n = self.regions[r.raw].blocks.len();
        self.splice_block_at(r, n, nb);
        proof {
            assert(final(self).blocks_of(r) =~= old(self).blocks_of(r).push(nb));
        }
    }
}

/// Transient accumulator for one operation's attributes prior to
/// materialization: a fixed name and location, and the operands added so far.
/// The name and the location are set when the assembly is seeded and cannot
/// be changed afterwards; only operands accumulate.
pub struct OperationState {
    name: u64,
    loc: Location,
    operands: Vec<u64>,
}

impl OperationState {
    /// The operation name the assembly was seeded with.
    pub closed spec fn spec_name(self) -> u64 {
        self.name
    }

    /// The location the finished operation will carry.
    pub closed spec fn spec_loc(self) -> Location {
        self.loc
    }

    /// The operands accumulated so far.
    pub closed spec fn spec_operands(self) -> Seq<u64> {
        self.operands@
    }

    /// Start assembling an operation with the given name and location.
    pub fn new(name: u64, loc: Location) -> (r: OperationState)
        ensures
            r.spec_name() == name,
            r.spec_loc() == loc,
            r.spec_operands() == Seq::<u64>::empty(),
    {
        OperationState { name, loc, operands: Vec::new() }
    }

    /// Append one operand.
    pub fn add_operand(&mut self, v: u64)
        ensures
            final(self).spec_name() == old(self).spec_name(),
            final(self).spec_loc() == old(self).spec_loc(),
            final(self).spec_operands() == old(self).spec_operands().push(v),
    {
        self.operands.push(v);
    }

    /// The same accumulated operands under a given name and location; lets
    /// the builder stamp an emitted operation with the values it read before
    /// the population callback ran.
    pub(crate) fn restamped(self, name: u64, loc: Location) -> (r: OperationState)
        ensures
            r.spec_name() == name,
            r.spec_loc() == loc,
            r.spec_operands() == self.spec_operands(),
    {
        OperationState { name, loc, operands: self.operands }
    }

    /// Materialize a concrete operation from the accumulated state. The new
    /// operation carries the assembly's name, location and operands, and is
    /// not yet attached to any block.
    pub fn build(self, cx: &mut Context) -> (op: Operation)
        requires
            old(cx).wf(),
        ensures
            final(cx).wf(),
            !old(cx).valid_op(op),
            final(cx).valid_op(op),
            final(cx).num_ops() == old(cx).num_ops() + 1,
            final(cx).op_name(op) == self.spec_name(),
            final(cx).op_loc(op) == self.spec_loc(),
            final(cx).op_operands(op) == self.spec_operands(),
            final(cx).op_parent(op) is None,
            final(cx).num_blocks() == old(cx).num_blocks(),
            final(cx).num_regions() == old(cx).num_regions(),
            final(cx).num_types() == old(cx).num_types(),
            same_ops(*final(cx), *old(cx)),
            same_blocks(*final(cx), *old(cx)),
            same_regions(*final(cx), *old(cx)),
            same_types(*final(cx), *old(cx)),
    {
        cx.alloc_op(self)
    }
}

impl Context {
    /// Allocate a fresh, unattached operation holding the assembly's data.
    fn alloc_op(&mut self, st: OperationState) -> (op: Operation)
        requires
            old(self).wf(),
        ensures
            final(self).wf(),
            !old(self).valid_op(op),
            final(self).valid_op(op),
            final(self).num_ops() == old(self).num_ops() + 1,
            final(self).op_name(op) == st.name,
            final(self).op_loc(op) == st.loc,
            final(self).op_operands(op) == st.operands@,
            final(self).op_parent(op) is None,
            final(self).num_blocks() == old(self).num_blocks(),
            final(self).num_regions() == old(self).num_regions(),
            final(self).num_types() == old(self).num_types(),
            same_ops(*final(self), *old(self)),
            same_blocks(*final(self), *old(self)),
            same_regions(*final(self), *old(self)),
            same_types(*final(self), *old(self)),
    {
        let op = Operation { raw: self.ops.len() };
        self.ops.push(OpData { name: st.name, loc: st.loc, operands: st.operands, parent: None });
        proof {
            old(self).lemma_extend_preserves_wf(*self);
        }
        op
    }
}

} // verus!
