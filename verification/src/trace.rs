//! Packed timestamps, events, fixed-capacity event blocks, the block pool and
//! tracks.

use std::cmp::Ordering;
use tinyvec::ArrayVec;
use vstd::prelude::*;
use vstd::std_specs::cmp::{PartialEqSpecImpl, PartialOrdSpecImpl};

verus! {

/// Nanoseconds since the start of a trace.
pub type Nanos = u64;

/// Position of a block inside its [`BlockPool`].
pub type BlockIndex = u32;

/// Number of events a [`TraceBlock`] holds inline.
pub const EVENTS_PER_BLOCK: usize = 16;

/// First value that no longer fits in a [`PackedNanos`].
pub const PACKED_LIMIT: u64 = 0x1_0000_0000_0000;

/// The number that six little-endian bytes stand for.
pub open spec fn le_value(b: Seq<u8>) -> int
    recommends
        b.len() == 6,
{
    b[0] as int + 0x100 * (b[1] as int) + 0x1_0000 * (b[2] as int) + 0x100_0000 * (b[3] as int)
        + 0x1_0000_0000 * (b[4] as int) + 0x100_0000_0000 * (b[5] as int)
}

/// A nanosecond count below 2^48, stored as six little-endian bytes.
#[derive(Copy, Clone, Debug, Default, Eq, Hash)]
pub struct PackedNanos([u8; 6]);

impl View for PackedNanos {
    type V = int;

    closed spec fn view(&self) -> int {
        le_value(self.0@)
    }
}

proof fn lemma_split_bytes(ts: u64)
    ensures
        (ts & 0xff) + 0x100 * ((ts >> 8) & 0xff) + 0x1_0000 * ((ts >> 16) & 0xff) + 0x100_0000 * ((
        ts >> 24) & 0xff) + 0x1_0000_0000 * ((ts >> 32) & 0xff) + 0x100_0000_0000 * ((ts >> 40)
            & 0xff) == ts % 0x1_0000_0000_0000,
{
    assert((ts & 0xff) + 0x100 * ((ts >> 8) & 0xff) + 0x1_0000 * ((ts >> 16) & 0xff) + 0x100_0000
        * ((ts >> 24) & 0xff) + 0x1_0000_0000 * ((ts >> 32) & 0xff) + 0x100_0000_0000 * ((ts >> 40)
        & 0xff) == ts % 0x1_0000_0000_0000) by (bit_vector);
}

impl PackedNanos {
    /// `ts` packed: its low 48 bits, byte by byte.
    pub closed spec fn packed(ts: Nanos) -> Self {
        PackedNanos(
            [
                (ts & 0xff) as u8,
                ((ts >> 8) & 0xff) as u8,
                ((ts >> 16) & 0xff) as u8,
                ((ts >> 24) & 0xff) as u8,
                ((ts >> 32) & 0xff) as u8,
                ((ts >> 40) & 0xff) as u8,
            ],
        )
    }

    /// Every packed value lies below 2^48.
    pub proof fn lemma_range(self)
        ensures
            0 <= self@ < PACKED_LIMIT,
    {
    }

    /// Packing keeps the low 48 bits of a number, and so all of a number below
    /// 2^48.
    pub proof fn lemma_packed(ts: Nanos)
        ensures
            Self::packed(ts)@ == ts % PACKED_LIMIT,
            ts < PACKED_LIMIT ==> Self::packed(ts)@ == ts,
    {
        lemma_split_bytes(ts);
        assert(ts & 0xff < 0x100 && (ts >> 8) & 0xff < 0x100 && (ts >> 16) & 0xff < 0x100 && (ts
            >> 24) & 0xff < 0x100 && (ts >> 32) & 0xff < 0x100 && (ts >> 40) & 0xff < 0x100)
            by (bit_vector);
    }

    /// Packs `ts`, keeping its low 48 bits.
    pub fn new(ts: Nanos) -> (packed: Self)
        ensures
            packed == Self::packed(ts),
            packed@ == ts % PACKED_LIMIT,
            ts < PACKED_LIMIT ==> packed@ == ts,
    {
        let b0 = (ts & 0xff) as u8;
        let b1 = ((ts >> 8) & 0xff) as u8;
        let b2 = ((ts >> 16) & 0xff) as u8;
        let b3 = ((ts >> 24) & 0xff) as u8;
        let b4 = ((ts >> 32) & 0xff) as u8;
        let b5 = ((ts >> 40) & 0xff) as u8;
        proof {
            Self::lemma_packed(ts);
        }
        let packed = PackedNanos([b0, b1, b2, b3, b4, b5]);
        assert(packed.0@ =~= Self::packed(ts).0@);
        packed
    }

    /// The packed value, widened back to 64 bits.
    pub fn unpack(self) -> (ts: Nanos)
        ensures
            ts == self@,
            ts < PACKED_LIMIT,
    {
        let b = self.0;
        let b0 = b[0] as u64;
        let b1 = b[1] as u64;
        let b2 = b[2] as u64;
        let b3 = b[3] as u64;
        let b4 = b[4] as u64;
        let b5 = b[5] as u64;
        b0 + 0x100 * b1 + 0x1_0000 * b2 + 0x100_0000 * b3 + 0x1_0000_0000 * b4 + 0x100_0000_0000
            * b5
    }
}

impl PartialEq for PackedNanos {
    fn eq(&self, other: &Self) -> (equal: bool) {
        self.unpack() == other.unpack()
    }
}

impl PartialEqSpecImpl for PackedNanos {
    open spec fn obeys_eq_spec() -> bool {
        true
    }

    open spec fn eq_spec(&self, other: &Self) -> bool {
        self@ == other@
    }
}

impl PartialOrd for PackedNanos {
    fn partial_cmp(&self, other: &Self) -> (order: Option<Ordering>) {
        self.unpack().partial_cmp(&other.unpack())
    }
}

impl PartialOrdSpecImpl for PackedNanos {
    open spec fn obeys_partial_cmp_spec() -> bool {
        true
    }

    open spec fn partial_cmp_spec(&self, other: &Self) -> Option<Ordering> {
        if self@ < other@ {
            Some(Ordering::Less)
        } else if self@ == other@ {
            Some(Ordering::Equal)
        } else {
            Some(Ordering::Greater)
        }
    }
}

/// One event of a trace: what happened, when, and for how long.
#[derive(Copy, Clone, Debug, Default, PartialEq, Eq, PartialOrd, Hash)]
pub struct TraceEvent {
    /// Identifies the event to whoever pushed it.
    pub kind: u64,
    pub timestamp: PackedNanos,
    pub duration: PackedNanos,
}

impl TraceEvent {
    /// When the event started.
    pub open spec fn time(&self) -> int {
        self.timestamp@
    }

    /// When the event was over.
    pub open spec fn end(&self) -> int {
        self.timestamp@ + self.duration@
    }
}

/// Whether no event is earlier than one before it.
pub open spec fn ascending(events: Seq<TraceEvent>) -> bool {
    forall|i: int, j: int| 0 <= i <= j < events.len() ==> events[i].time() <= events[j].time()
}

/// Whether every location names a block of the pool.
pub open spec fn located(pool: Seq<Seq<TraceEvent>>, locs: Seq<BlockIndex>) -> bool {
    forall|i: int| 0 <= i < locs.len() ==> 0 <= #[trigger] locs[i] < pool.len()
}

/// The blocks that the locations name, in the order of the locations.
pub open spec fn blocks_at(pool: Seq<Seq<TraceEvent>>, locs: Seq<BlockIndex>) -> Seq<
    Seq<TraceEvent>,
> {
    Seq::new(locs.len(), |i: int| pool[locs[i] as int])
}

/// Whether each location lies behind the one before it.
pub open spec fn rising(locs: Seq<BlockIndex>) -> bool {
    forall|i: int, j: int| 0 <= i < j < locs.len() ==> locs[i] < locs[j]
}

/// Whether none of the blocks is empty.
pub open spec fn all_nonempty(blocks: Seq<Seq<TraceEvent>>) -> bool {
    forall|i: int| 0 <= i < blocks.len() ==> (#[trigger] blocks[i]).len() > 0
}

/// `tinyvec::ArrayVec`: a vector that lives inside a fixed array. Nothing of
/// its inside is known here; what it holds goes by [`stored_events`].
#[verifier::external_type_specification]
#[verifier::external_body]
#[verifier::reject_recursive_types(A)]
pub struct ExArrayVec<A>(ArrayVec<A>);

/// The events that an inline vector holds, in the order they were pushed: the
/// first `len` slots of its array.
pub uninterp spec fn stored_events(v: ArrayVec<[TraceEvent; 16]>) -> Seq<TraceEvent>;

/// `tinyvec::ArrayVec::new`: a vector of length zero, which holds nothing.
#[verifier::external_body]
fn inline_new() -> (v: ArrayVec<[TraceEvent; 16]>)
    ensures
        stored_events(v) == Seq::<TraceEvent>::empty(),
{
    ArrayVec::new()
}

/// `tinyvec::ArrayVec::len`: the number of events held. It never exceeds the
/// capacity, which is the length of the array, sixteen: a push onto a full
/// vector is refused.
#[verifier::external_body]
fn inline_len(v: &ArrayVec<[TraceEvent; 16]>) -> (n: usize)
    ensures
        n == stored_events(*v).len(),
        n <= 16,
{
    v.len()
}

/// `tinyvec::ArrayVec::push`: writes the event into the slot behind those
/// already held and counts it in. The outside function panics on a full
/// vector, which the precondition leaves out.
#[verifier::external_body]
fn inline_push(v: &mut ArrayVec<[TraceEvent; 16]>, ev: TraceEvent)
    requires
        stored_events(*old(v)).len() < 16,
    ensures
        stored_events(*final(v)) == stored_events(*old(v)).push(ev),
{
    v.push(ev)
}

/// `tinyvec::ArrayVec::as_slice`: the slots that are held, as a slice, in
/// order.
#[verifier::external_body]
fn inline_as_slice(v: &ArrayVec<[TraceEvent; 16]>) -> (s: &[TraceEvent])
    ensures
        s@ == stored_events(*v),
{
    v.as_slice()
}

/// Up to sixteen events stored inline, in the order they were pushed.
#[derive(Debug)]
pub struct TraceBlock {
    events: ArrayVec<[TraceEvent; 16]>,
}

impl View for TraceBlock {
    type V = Seq<TraceEvent>;

    closed spec fn view(&self) -> Seq<TraceEvent> {
        stored_events(self.events)
    }
}

impl TraceBlock {
    /// An empty block.
    pub fn new() -> (block: Self)
        ensures
            block@ == Seq::<TraceEvent>::empty(),
    {
        TraceBlock { events: inline_new() }
    }

    pub fn len(&self) -> (n: usize)
        ensures
            n == self@.len(),
            n <= EVENTS_PER_BLOCK,
    {
        inline_len(&self.events)
    }

    pub fn is_empty(&self) -> (b: bool)
        ensures
            b == (self@.len() == 0),
    {
        inline_len(&self.events) == 0
    }

    /// Whether the block has reached its capacity.
    pub fn is_full(&self) -> (b: bool)
        ensures
            b == (self@.len() == EVENTS_PER_BLOCK),
            self@.len() <= EVENTS_PER_BLOCK,
    {
        inline_len(&self.events) == EVENTS_PER_BLOCK
    }

    /// Appends `ev` to a block that still has room.
    pub fn push(&mut self, ev: TraceEvent)
        requires
            old(self)@.len() < EVENTS_PER_BLOCK,
        ensures
            final(self)@ == old(self)@.push(ev),
    {
        inline_push(&mut self.events, ev)
    }

    /// The events of the block, earliest first.
    pub fn events(&self) -> (s: &[TraceEvent])
        ensures
            s@ == self@,
    {
        inline_as_slice(&self.events)
    }

    /// Timestamp of the first event of a block that is not empty.
    pub fn start_time(&self) -> (t: Nanos)
        requires
            self@.len() > 0,
        ensures
            t == self@[0].timestamp@,
    {
        let s = inline_as_slice(&self.events);
        s[0].timestamp.unpack()
    }
}

impl Default for TraceBlock {
    fn default() -> (block: Self)
        ensures
            block@ == Seq::<TraceEvent>::empty(),
    {
        Self::new()
    }
}

/// The arena that owns every block of a trace. Blocks are only ever added.
#[derive(Debug)]
pub struct BlockPool {
    pub blocks: Vec<TraceBlock>,
}

impl View for BlockPool {
    type V = Seq<Seq<TraceEvent>>;

    open spec fn view(&self) -> Seq<Seq<TraceEvent>> {
        Seq::new(self.blocks@.len(), |i: int| self.blocks@[i]@)
    }
}

impl BlockPool {
    /// A pool without blocks.
    pub fn new() -> (pool: Self)
        ensures
            pool@ == Seq::<Seq<TraceEvent>>::empty(),
    {
        let pool = BlockPool { blocks: Vec::new() };
        assert(pool@ =~= Seq::<Seq<TraceEvent>>::empty());
        pool
    }

    /// Adds an empty block and returns its index. Earlier blocks keep theirs.
    pub fn allocate(&mut self) -> (i: BlockIndex)
        requires
            old(self).blocks.len() <= u32::MAX,
        ensures
            i == old(self)@.len(),
            final(self)@ == old(self)@.push(Seq::<TraceEvent>::empty()),
    {
        let i = self.blocks.len();
        self.blocks.push(TraceBlock::new());
        assert(self@ =~= old(self)@.push(Seq::<TraceEvent>::empty()));
        i as BlockIndex
    }
}

impl Default for BlockPool {
    fn default() -> (pool: Self)
        ensures
            pool@ == Seq::<Seq<TraceEvent>>::empty(),
    {
        Self::new()
    }
}

/// One lane of events: the blocks that hold them, in order.
#[derive(Debug)]
pub struct Track {
    pub block_locations: Vec<BlockIndex>,
}

/// Appending an event that is not earlier than the last keeps the order.
pub proof fn lemma_push_keeps_order(events: Seq<TraceEvent>, ev: TraceEvent)
    requires
        ascending(events),
        events.len() > 0 ==> events.last().time() <= ev.time(),
    ensures
        ascending(events.push(ev)),
{
    let after = events.push(ev);
    assert forall|i: int, j: int| 0 <= i <= j < after.len() implies after[i].time()
        <= after[j].time() by {
        if j == events.len() && i < j {
            assert(events[i].time() <= events.last().time());
        }
    }
}

/// Events of blocks that are not empty start with the first block's first event
/// and end with the last block's last.
pub proof fn lemma_flat_ends(blocks: Seq<Seq<TraceEvent>>)
    requires
        blocks.len() > 0,
        all_nonempty(blocks),
    ensures
        blocks.flatten().len() > 0,
        blocks.flatten().first() == blocks.first().first(),
        blocks.flatten().last() == blocks.last().last(),
{
    assert(blocks.first().len() > 0);
    assert(blocks.last().len() > 0);
    assert(blocks.flatten() =~= blocks.first() + blocks.drop_first().flatten());
    assert(blocks =~= blocks.drop_last().push(blocks.last()));
    blocks.drop_last().lemma_flatten_push(blocks.last());
    assert(blocks.flatten() =~= blocks.drop_last().flatten() + blocks.last());
}

impl Track {
    /// The blocks of the track, in order.
    pub open spec fn blocks(&self, pool: &BlockPool) -> Seq<Seq<TraceEvent>> {
        blocks_at(pool@, self.block_locations@)
    }

    /// Every event of the track, in the order they were pushed.
    pub open spec fn event_seq(&self, pool: &BlockPool) -> Seq<TraceEvent> {
        self.blocks(pool).flatten()
    }

    /// Whether the track fits `pool`: its locations name blocks of the pool,
    /// in the order in which the pool handed them out, and none of the blocks is
    /// empty.
    pub open spec fn wf(&self, pool: &BlockPool) -> bool {
        &&& located(pool@, self.block_locations@)
        &&& rising(self.block_locations@)
        &&& all_nonempty(self.blocks(pool))
    }

    /// A track without events, which fits every pool.
    pub fn new() -> (track: Self)
        ensures
            track.block_locations@ == Seq::<BlockIndex>::empty(),
            forall|pool: &BlockPool| #[trigger] track.wf(pool),
            forall|pool: &BlockPool|
                #[trigger] track.event_seq(pool) == Seq::<TraceEvent>::empty(),
    {
        let track = Track { block_locations: Vec::new() };
        assert forall|pool: &BlockPool| #[trigger]
            track.event_seq(pool) == Seq::<TraceEvent>::empty() by {
            assert(track.blocks(pool) =~= Seq::<Seq<TraceEvent>>::empty());
        }
        track
    }

    fn new_block(&mut self, pool: &mut BlockPool) -> (i: BlockIndex)
        requires
            old(pool).blocks.len() <= u32::MAX,
        ensures
            i == old(pool)@.len(),
            final(pool)@ == old(pool)@.push(Seq::<TraceEvent>::empty()),
            final(self).block_locations@ == old(self).block_locations@.push(i),
    {
        let i = pool.allocate();
        self.block_locations.push(i);
        i
    }

    /// Appends `ev` to the track: into its last block while that has room,
    /// else into a block newly taken from the pool. Blocks of other tracks stay
    /// as they are, and a track in ascending order stays so when `ev` is not
    /// earlier than its last event.
    pub fn push(&mut self, pool: &mut BlockPool, ev: TraceEvent)
        requires
            old(self).wf(old(pool)),
            old(pool).blocks.len() <= u32::MAX,
        ensures
            final(self).wf(final(pool)),
            final(self).event_seq(final(pool)) == old(self).event_seq(old(pool)).push(ev),
            old(self).block_locations@.len() == 0 || old(self).blocks(old(pool)).last().len()
                == EVENTS_PER_BLOCK ==> {
                &&& final(pool)@ == old(pool)@.push(seq![ev])
                &&& final(self).block_locations@ == old(self).block_locations@.push(
                    old(pool)@.len() as BlockIndex,
                )
            },
            old(self).block_locations@.len() > 0 && old(self).blocks(old(pool)).last().len()
                != EVENTS_PER_BLOCK ==> {
                &&& final(pool)@ == old(pool)@.update(
                    old(self).block_locations@.last() as int,
                    old(self).blocks(old(pool)).last().push(ev),
                )
                &&& final(self).block_locations@ == old(self).block_locations@
            },
            ascending(old(self).event_seq(old(pool))) && (old(self).event_seq(old(pool)).len() > 0
                ==> old(self).event_seq(old(pool)).last().time() <= ev.time()) ==> ascending(
                final(self).event_seq(final(pool)),
            ),
    {
        let ghost old_locs = self.block_locations@;
        let ghost old_pool = pool@;
        let ghost old_blocks = self.blocks(pool);
        let n = self.block_locations.len();
        let fresh = if n == 0 {
            true
        } else {
            let i = self.block_locations[n - 1];
            assert(old_blocks[n - 1] == pool@[i as int]);
            pool.blocks[i as usize].is_full()
        };
        let last = if fresh {
            self.new_block(pool)
        } else {
            self.block_locations[n - 1]
        };
        proof {
            assert(pool@.len() == pool.blocks@.len());
            if fresh {
                assert(pool@[last as int] == Seq::<TraceEvent>::empty());
            } else {
                assert(old_blocks[n - 1] == old_pool[last as int]);
            }
            assert(pool@[last as int] == pool.blocks@[last as int]@);
        }
        let ghost mid_pool = pool@;
        pool.blocks[last as usize].push(ev);
        proof {
            let new_blocks = self.blocks(pool);
            assert(pool@ =~= mid_pool.update(last as int, mid_pool[last as int].push(ev)));
            if fresh {
                assert(Seq::<TraceEvent>::empty().push(ev) =~= seq![ev]);
                assert(pool@ =~= old_pool.push(seq![ev]));
                assert(new_blocks =~= old_blocks.push(seq![ev]));
                old_blocks.lemma_flatten_push(seq![ev]);
                assert(old_blocks.flatten() + seq![ev] =~= old_blocks.flatten().push(ev));
                assert forall|a: int, b: int|
                    0 <= a < b < self.block_locations@.len() implies self.block_locations@[a]
                    < self.block_locations@[b] by {
                    if b < n {
                        assert(old_locs[a] < old_locs[b]);
                    } else {
                        assert(old_locs[a] < old_pool.len());
                    }
                }
            } else {
                let grown = old_blocks.last().push(ev);
                assert(pool@ =~= old_pool.update(last as int, grown));
                assert forall|k: int| 0 <= k < n implies new_blocks[k] == old_blocks.drop_last().push(
                    grown,
                )[k] by {
                    if k < n - 1 {
                        assert(old_locs[k] < old_locs[n - 1]);
                        assert(new_blocks[k] == old_blocks[k]);
                    }
                }
                assert(new_blocks =~= old_blocks.drop_last().push(grown));
                assert(old_blocks =~= old_blocks.drop_last().push(old_blocks.last()));
                old_blocks.drop_last().lemma_flatten_push(grown);
                old_blocks.drop_last().lemma_flatten_push(old_blocks.last());
                assert(old_blocks.drop_last().flatten() + grown =~= (
                old_blocks.drop_last().flatten() + old_blocks.last()).push(ev));
            }
            assert(self.event_seq(pool) =~= old_blocks.flatten().push(ev));
            if ascending(old_blocks.flatten()) && (old_blocks.flatten().len() > 0
                ==> old_blocks.flatten().last().time() <= ev.time()) {
                lemma_push_keeps_order(old_blocks.flatten(), ev);
            }
        }
    }

    /// Timestamp of the first event, if the track has one.
    pub fn start_time(&self, pool: &BlockPool) -> (t: Option<Nanos>)
        requires
            self.wf(pool),
        ensures
            self.event_seq(pool).len() == 0 ==> t is None,
            self.event_seq(pool).len() > 0 ==> t == Some(
                self.event_seq(pool).first().time() as u64,
            ),
    {
        if self.block_locations.len() == 0 {
            assert(self.blocks(pool) =~= Seq::<Seq<TraceEvent>>::empty());
            None
        } else {
            let i = self.block_locations[0];
            proof {
                lemma_flat_ends(self.blocks(pool));
                assert(self.blocks(pool)[0] == pool@[i as int]);
            }
            Some(pool.blocks[i as usize].start_time())
        }
    }

    /// Timestamp of the last event, if the track has one.
    pub fn end_time(&self, pool: &BlockPool) -> (t: Option<Nanos>)
        requires
            self.wf(pool),
        ensures
            self.event_seq(pool).len() == 0 ==> t is None,
            self.event_seq(pool).len() > 0 ==> t == Some(self.event_seq(pool).last().time() as u64),
    {
        let n = self.block_locations.len();
        if n == 0 {
            assert(self.blocks(pool) =~= Seq::<Seq<TraceEvent>>::empty());
            None
        } else {
            let i = self.block_locations[n - 1];
            proof {
                lemma_flat_ends(self.blocks(pool));
                assert(self.blocks(pool)[n - 1] == pool@[i as int]);
            }
            let events = pool.blocks[i as usize].events();
            let last = &events[events.len() - 1];
            Some(last.timestamp.unpack())
        }
    }

    /// The moment the last event is over, if the track has an event.
    pub fn after_last_time(&self, pool: &BlockPool) -> (t: Option<Nanos>)
        requires
            self.wf(pool),
        ensures
            self.event_seq(pool).len() == 0 ==> t is None,
            self.event_seq(pool).len() > 0 ==> t == Some(self.event_seq(pool).last().end() as u64),
    {
        let n = self.block_locations.len();
        if n == 0 {
            assert(self.blocks(pool) =~= Seq::<Seq<TraceEvent>>::empty());
            None
        } else {
            let i = self.block_locations[n - 1];
            proof {
                lemma_flat_ends(self.blocks(pool));
                assert(self.blocks(pool)[n - 1] == pool@[i as int]);
            }
            let events = pool.blocks[i as usize].events();
            let last = &events[events.len() - 1];
            Some(last.timestamp.unpack() + last.duration.unpack())
        }
    }

    /// Whether the track fits `pool`.
    pub fn fits(&self, pool: &BlockPool) -> (fit: bool)
        ensures
            fit == self.wf(pool),
    {
        let mut i: usize = 0;
        while i < self.block_locations.len()
            invariant
                i <= self.block_locations.len(),
                located(pool@, self.block_locations@.take(i as int)),
                rising(self.block_locations@.take(i as int)),
                all_nonempty(blocks_at(pool@, self.block_locations@.take(i as int))),
            decreases self.block_locations.len() - i,
        {
            let loc = self.block_locations[i];
            let ghost locs = self.block_locations@;
            if loc as usize >= pool.blocks.len() {
                assert(!(0 <= locs[i as int] < pool@.len()));
                return false;
            }
            if i > 0 && self.block_locations[i - 1] >= loc {
                assert(!(locs[i - 1] < locs[i as int]));
                return false;
            }
            if pool.blocks[loc as usize].is_empty() {
                assert(self.blocks(pool)[i as int].len() == 0);
                return false;
            }
            proof {
                let before = locs.take(i as int);
                let now = locs.take(i + 1);
                assert forall|a: int, b: int| 0 <= a < b < now.len() implies now[a] < now[b] by {
                    if b < i {
                        assert(before[a] < before[b]);
                    } else if a < i - 1 {
                        assert(before[a] < before[i - 1]);
                    }
                }
                assert forall|k: int| 0 <= k < now.len() implies 0 <= #[trigger] now[k]
                    < pool@.len() by {
                    if k < i {
                        assert(before[k] == now[k]);
                    }
                }
                assert forall|k: int| 0 <= k < now.len() implies (#[trigger] blocks_at(
                    pool@,
                    now,
                )[k]).len() > 0 by {
                    if k < i {
                        assert(blocks_at(pool@, before)[k] == blocks_at(pool@, now)[k]);
                    }
                }
            }
            i += 1;
        }
        assert(self.block_locations@.take(i as int) =~= self.block_locations@);
        true
    }

    /// Whether no event of the track is earlier than the one before it.
    pub fn is_ascending(&self, pool: &BlockPool) -> (sorted: bool)
        requires
            located(pool@, self.block_locations@),
        ensures
            sorted == ascending(self.event_seq(pool)),
    {
        let all = self.events(pool);
        let mut i: usize = 1;
        while i < all.len()
            invariant
                1 <= i,
                all@ == self.event_seq(pool),
                forall|a: int, b: int| 0 <= a <= b < i && b < all@.len() ==> all@[a].time()
                    <= all@[b].time(),
            decreases all.len() - i,
        {
            if all[i - 1].timestamp.unpack() > all[i].timestamp.unpack() {
                assert(!(all@[i - 1].time() <= all@[i as int].time()));
                return false;
            }
            proof {
                assert forall|a: int, b: int| 0 <= a <= b < i + 1 && b < all@.len() implies all@[a].time()
                    <= all@[b].time() by {
                    if b == i && a < i {
                        assert(all@[a].time() <= all@[i - 1].time());
                    }
                }
            }
            i += 1;
        }
        true
    }

    /// Every event of the track, in order.
    pub fn events(&self, pool: &BlockPool) -> (all: Vec<TraceEvent>)
        requires
            located(pool@, self.block_locations@),
        ensures
            all@ == self.event_seq(pool),
    {
        let mut all: Vec<TraceEvent> = Vec::new();
        let mut b: usize = 0;
        assert(self.blocks(pool).take(0) =~= Seq::<Seq<TraceEvent>>::empty());
        while b < self.block_locations.len()
            invariant
                located(pool@, self.block_locations@),
                b <= self.block_locations.len(),
                all@ == self.blocks(pool).take(b as int).flatten(),
            decreases self.block_locations.len() - b,
        {
            let i = self.block_locations[b];
            let events = pool.blocks[i as usize].events();
            let ghost before = all@;
            let mut e: usize = 0;
            while e < events.len()
                invariant
                    e <= events.len(),
                    all@ == before + events@.take(e as int),
                decreases events.len() - e,
            {
                all.push(events[e]);
                e += 1;
                assert(events@.take(e as int) =~= events@.take(e - 1).push(events@[e - 1]));
            }
            proof {
                let blocks = self.blocks(pool);
                assert(events@.take(e as int) =~= events@);
                assert(blocks.take(b + 1) =~= blocks.take(b as int).push(blocks[b as int]));
                blocks.take(b as int).lemma_flatten_push(blocks[b as int]);
            }
            b += 1;
        }
        assert(self.blocks(pool).take(b as int) =~= self.blocks(pool));
        all
    }
}

impl Default for Track {
    fn default() -> (track: Self)
        ensures
            track.block_locations@ == Seq::<BlockIndex>::empty(),
    {
        Self::new()
    }
}

} // verus!
