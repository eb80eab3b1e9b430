//! The buffer pool: at most six pages of a table kept in memory, with clock
//! eviction, and every change written back to the table before a page leaves.

use vstd::prelude::*;
use std::collections::HashMap;
use crate::error::StorageError;
use crate::pages::Page;
use crate::pages::PageView;
use crate::node::NodeView;
use crate::codec::image;
use crate::codec::decode_page;
use crate::codec::law_read_back;
use crate::codec::lemma_settled;
use crate::codec::lemma_decoded_conforms;
use crate::engine::Table;
use crate::engine::TableView;
use crate::engine::lemma_page_written;
use crate::engine::lemma_page_created;
use crate::engine::lemma_page_removed;
use crate::bytes::copy_range;

verus! {

/// The most pages that the pool keeps in memory.
pub const POOL_SIZE: usize = 6;

/// A page in the pool, with its id and its two marks.
#[derive(Debug)]
pub struct Frame {
    pub page: Page,
    pub page_id: u32,
    /// Set by every access, cleared by the eviction sweep.
    pub pin: bool,
    /// The page may differ from its copy in the table file.
    pub dirty: bool,
}

/// What a [`Frame`] holds.
pub struct FrameView {
    pub page: PageView,
    pub page_id: u32,
    pub pin: bool,
    pub dirty: bool,
}

impl View for Frame {
    type V = FrameView;

    open spec fn view(&self) -> FrameView {
        FrameView { page: self.page@, page_id: self.page_id, pin: self.pin, dirty: self.dirty }
    }
}

/// The pool: the table, the frames, an index from page id to frame, and the
/// hand of the eviction clock.
#[derive(Debug)]
pub struct BufferPool {
    pub file: Table,
    pub pool: Vec<Frame>,
    pub table: HashMap<u32, usize>,
    pub clock: usize,
}

/// What a [`BufferPool`] holds. The index is left out: it follows from the
/// frames.
#[verifier::ext_equal]
pub struct PoolView {
    pub file: TableView,
    pub frames: Seq<FrameView>,
    pub clock: usize,
}

/// The views of a sequence of frames, in order.
pub open spec fn frames_view(frames: Seq<Frame>) -> Seq<FrameView> {
    frames.map_values(|f: Frame| f@)
}

impl View for BufferPool {
    type V = PoolView;

    open spec fn view(&self) -> PoolView {
        PoolView { file: self.file@, frames: frames_view(self.pool@), clock: self.clock }
    }
}

/// The first frame that holds page `id`, or the number of frames.
pub open spec fn frame_index(frames: Seq<FrameView>, id: u32) -> int
    decreases frames.len(),
{
    if frames.len() == 0 {
        0
    } else if frames[0].page_id == id {
        0
    } else {
        1 + frame_index(frames.skip(1), id)
    }
}

/// The clock sweep over six frames: while the frame under the hand is pinned,
/// its pin is cleared and the hand moves on, for at most `fuel` steps. Gives
/// the frames after the sweep and where the hand stopped.
#[verifier::opaque]
pub open spec fn swept(frames: Seq<FrameView>, clock: int, fuel: nat) -> (Seq<FrameView>, int)
    decreases fuel,
{
    let i = clock % 6;
    if fuel == 0 || !frames[i].pin {
        (frames, clock)
    } else {
        swept(frames.update(i, FrameView { pin: false, ..frames[i] }), clock + 1, (fuel - 1) as nat)
    }
}

/// Whether the index agrees with the frames: it knows exactly the resident
/// pages, each with the place of its frame.
pub open spec fn index_ok(index: Map<u32, usize>, frames: Seq<FrameView>) -> bool {
    forall|id: u32|
        (#[trigger] index.contains_key(id)) == (frame_index(frames, id) < frames.len()) && (
        index.contains_key(id) ==> index[id] == frame_index(frames, id))
}

impl PoolView {
    /// The column types of the table.
    pub open spec fn types(self) -> Seq<u8> {
        self.file.column_types
    }

    /// Whether page `id` is in the pool.
    pub open spec fn resident(self, id: u32) -> bool {
        frame_index(self.frames, id) < self.frames.len()
    }

    /// Page `id` as the table file holds it, if the file holds a page there,
    /// where this machine can address it.
    pub open spec fn on_disk(self, id: u32) -> Option<PageView> {
        if self.file.in_reach(id) {
            decode_page(self.types(), self.file.page_at(id))
        } else {
            None
        }
    }

    /// Page `id` as the pool's users see it: the resident page, or else the page
    /// in the file.
    pub open spec fn page_of(self, id: u32) -> Option<PageView> {
        if self.resident(id) {
            Some(self.frames[frame_index(self.frames, id)].page)
        } else {
            self.on_disk(id)
        }
    }

    /// Page `id` as a tree node.
    pub open spec fn node(self, id: u32) -> Option<NodeView> {
        match self.page_of(id) {
            Some(page) => Some(page.node()),
            None => None,
        }
    }

    /// Frame `i` holds a sound page that matches the schema, under an id that
    /// no earlier frame holds and that the file can hold; and unless the frame
    /// is dirty, the file holds a page of the same keys and rows.
    pub open spec fn frame_ok(self, i: int) -> bool {
        let f = self.frames[i];
        &&& f.page.wf()
        &&& f.page.conforms(self.types())
        &&& self.file.in_reach(f.page_id)
        &&& frame_index(self.frames, f.page_id) == i
        &&& (!f.dirty ==> (self.on_disk(f.page_id) matches Some(p) && p.node() == f.page.node()))
    }

    /// A sound table, at most six frames, each of them sound, and the hand on
    /// the clock face.
    pub open spec fn wf(self) -> bool {
        &&& self.file.wf()
        &&& self.frames.len() <= 6
        &&& self.clock < 6
        &&& forall|i: int| 0 <= i < self.frames.len() ==> #[trigger] self.frame_ok(i)
    }

    /// The pool with other frames.
    pub open spec fn with_frames(self, frames: Seq<FrameView>) -> PoolView {
        PoolView { frames, ..self }
    }

    /// The pool with another table.
    pub open spec fn with_file(self, file: TableView) -> PoolView {
        PoolView { file, ..self }
    }

    /// The pool with `page` in frame `i`.
    pub open spec fn with_page(self, i: int, page: PageView) -> PoolView {
        self.with_frames(self.frames.update(i, FrameView { page, ..self.frames[i] }))
    }

    /// The pool after frame `v` left it, its page written to the file first if
    /// it is dirty, with the clock's hand at `clock`.
    pub open spec fn without(self, v: int, clock: usize) -> PoolView {
        let out = self.frames[v];
        PoolView {
            file: if out.dirty {
                self.file.page_written(out.page_id, image(out.page))
            } else {
                self.file
            },
            frames: self.frames.remove(v),
            clock,
        }
    }

    /// The pool after room was made for one more page. A pool of fewer than six
    /// frames is left alone. Else the clock sweeps to the first frame without
    /// a pin; that frame leaves the pool, its page written to the file first
    /// if it is dirty; the hand ends one past it.
    pub open spec fn evicted(self) -> PoolView {
        if self.frames.len() < 6 {
            self
        } else {
            let (frames, hand) = swept(self.frames, self.clock as int, 6);
            self.with_frames(frames).without(hand % 6, ((hand + 1) % 6) as usize)
        }
    }

    /// The pool with frame `i` pinned, and made dirty if `dirty` is set.
    pub open spec fn touched(self, i: int, dirty: bool) -> PoolView {
        self.with_frames(
            self.frames.update(
                i,
                FrameView { pin: true, dirty: self.frames[i].dirty || dirty, ..self.frames[i] },
            ),
        )
    }

    /// The pool with `page` as page `id` in a new last frame, neither pinned
    /// nor dirty.
    pub open spec fn loaded(self, id: u32, page: PageView) -> PoolView {
        self.with_frames(
            self.frames.push(FrameView { page, page_id: id, pin: false, dirty: false }),
        )
    }

    /// Why page `id` cannot be handed out, if it cannot: it is not in the pool,
    /// and lies out of reach or is no page in the file.
    pub open spec fn fetch_error(self, id: u32) -> Option<StorageError> {
        if self.resident(id) {
            None
        } else if !self.file.in_reach(id) {
            Some(StorageError::TooLarge)
        } else if self.on_disk(id) is None {
            Some(StorageError::Corrupt)
        } else {
            None
        }
    }

    /// The pool after page `id` was brought in, if it was not resident: room
    /// made, the page read from the file into a new last frame.
    pub open spec fn brought(self, id: u32) -> PoolView {
        if self.resident(id) {
            self
        } else {
            self.evicted().loaded(id, self.on_disk(id)->0)
        }
    }

    /// The pool after page `id` was handed out: brought in if need be, pinned,
    /// and made dirty if it was handed out for change.
    pub open spec fn fetched(self, id: u32, dirty: bool) -> PoolView {
        self.brought(id).touched(frame_index(self.brought(id).frames, id), dirty)
    }

    /// The pool without the frame of page `id`, if there is one.
    pub open spec fn dropped(self, id: u32) -> PoolView {
        if self.resident(id) {
            self.with_frames(self.frames.remove(frame_index(self.frames, id)))
        } else {
            self
        }
    }

    /// The pool after the dirty pages among the first `n` frames were written to
    /// the file.
    pub open spec fn flushed(self, n: int) -> PoolView
        decreases n,
    {
        if n <= 0 {
            self
        } else {
            let before = self.flushed(n - 1);
            let f = self.frames[n - 1];
            if f.dirty {
                before.with_file(before.file.page_written(f.page_id, image(f.page)))
            } else {
                before
            }
        }
    }

    /// Whether every page is the same tree node in `self` and in `other`, and
    /// the two pools serve the same table schema.
    pub open spec fn same_nodes(self, other: PoolView) -> bool {
        &&& forall|id: u32| #[trigger] self.node(id) == other.node(id)
        &&& self.types() == other.types()
        &&& self.file.column_number == other.file.column_number
    }

    /// Whether the file holds every resident page with its keys and rows.
    pub open spec fn durable(self) -> bool {
        forall|i: int|
            0 <= i < self.frames.len() ==> (self.on_disk(
                (#[trigger] self.frames[i]).page_id,
            ) matches Some(p) && p.node() == self.frames[i].page.node())
    }
}

impl BufferPool {
    /// The pool is sound and its index agrees with its frames.
    pub open spec fn wf(&self) -> bool {
        self@.wf() && index_ok(self.table@, self@.frames)
    }
}

/// The place of a page among the frames is the first frame with its id.
pub proof fn lemma_frame_index(frames: Seq<FrameView>, id: u32)
    ensures
        0 <= frame_index(frames, id) <= frames.len(),
        forall|j: int| 0 <= j < frame_index(frames, id) ==> (#[trigger] frames[j]).page_id != id,
        frame_index(frames, id) < frames.len() ==> frames[frame_index(frames, id)].page_id == id,
    decreases frames.len(),
{
    if frames.len() > 0 && frames[0].page_id != id {
        lemma_frame_index(frames.skip(1), id);
        let rest = frame_index(frames.skip(1), id);
        assert forall|j: int| 0 <= j < 1 + rest implies (#[trigger] frames[j]).page_id != id by {
            if j > 0 {
                assert(frames[j] == frames.skip(1)[j - 1]);
            }
        }
        if rest < frames.skip(1).len() {
            assert(frames.skip(1)[rest] == frames[rest + 1]);
        }
    }
}

/// The place of a page is where the first frame with its id is.
pub proof fn lemma_frame_index_is(frames: Seq<FrameView>, id: u32, i: int)
    requires
        0 <= i <= frames.len(),
        forall|j: int| 0 <= j < i ==> (#[trigger] frames[j]).page_id != id,
        i < frames.len() ==> frames[i].page_id == id,
    ensures
        frame_index(frames, id) == i,
{
    lemma_frame_index(frames, id);
    let fi = frame_index(frames, id);
    if fi < i {
        assert(frames[fi].page_id != id);
    }
}

/// No two frames hold the same page.
pub open spec fn distinct(frames: Seq<FrameView>) -> bool {
    forall|i: int|
        0 <= i < frames.len() ==> frame_index(frames, (#[trigger] frames[i]).page_id) == i
}

pub proof fn lemma_distinct(frames: Seq<FrameView>, i: int, j: int)
    requires
        distinct(frames),
        0 <= i < frames.len(),
        0 <= j < frames.len(),
        frames[i].page_id == frames[j].page_id,
    ensures
        i == j,
{
}

/// Frames that keep their ids keep their places.
pub proof fn lemma_frame_index_same_ids(a: Seq<FrameView>, b: Seq<FrameView>, id: u32)
    requires
        a.len() == b.len(),
        forall|i: int| 0 <= i < a.len() ==> (#[trigger] a[i]).page_id == b[i].page_id,
    ensures
        frame_index(a, id) == frame_index(b, id),
{
    lemma_frame_index(a, id);
    let i = frame_index(a, id);
    assert forall|j: int| 0 <= j < i implies (#[trigger] b[j]).page_id != id by {
        assert(a[j].page_id != id);
    }
    if i < a.len() {
        assert(a[i].page_id == b[i].page_id);
    }
    lemma_frame_index_is(b, id, i);
}

/// Without frame `v`, the pages before it keep their places, the pages after
/// it move down by one, and its own page is gone.
pub proof fn lemma_frame_index_remove(frames: Seq<FrameView>, v: int, id: u32)
    requires
        distinct(frames),
        0 <= v < frames.len(),
    ensures
        frame_index(frames.remove(v), id) == (if frames[v].page_id == id {
            frames.len() - 1
        } else if frame_index(frames, id) < v {
            frame_index(frames, id)
        } else {
            frame_index(frames, id) - 1
        }),
{
    lemma_frame_index(frames, id);
    let after = frames.remove(v);
    let fi = frame_index(frames, id);
    if frames[v].page_id == id {
        assert forall|j: int| 0 <= j < after.len() implies (#[trigger] after[j]).page_id != id by {
            let o = if j < v { j } else { j + 1 };
            assert(after[j] == frames[o]);
            if frames[o].page_id == id {
                lemma_distinct(frames, o, v);
            }
        }
        lemma_frame_index_is(after, id, after.len() as int);
    } else if fi < v {
        assert forall|j: int| 0 <= j < fi implies (#[trigger] after[j]).page_id != id by {
            assert(after[j] == frames[j]);
        }
        assert(after[fi] == frames[fi]);
        lemma_frame_index_is(after, id, fi);
    } else {
        assert forall|j: int| 0 <= j < fi - 1 implies (#[trigger] after[j]).page_id != id by {
            let o = if j < v { j } else { j + 1 };
            assert(after[j] == frames[o]);
        }
        if fi < frames.len() {
            assert(after[fi - 1] == frames[fi]);
        }
        lemma_frame_index_is(after, id, fi - 1);
    }
}

/// With one more frame at the end, every page keeps its place, and the new
/// page is last if it was not resident.
pub proof fn lemma_frame_index_push(frames: Seq<FrameView>, f: FrameView, id: u32)
    ensures
        frame_index(frames.push(f), id) == (if frame_index(frames, id) < frames.len() {
            frame_index(frames, id)
        } else if f.page_id == id {
            frames.len() as int
        } else {
            frames.len() as int + 1
        }),
{
    lemma_frame_index(frames, id);
    let after = frames.push(f);
    let fi = frame_index(frames, id);
    assert forall|j: int| 0 <= j < fi implies (#[trigger] after[j]).page_id != id by {
        assert(after[j] == frames[j]);
    }
    if fi < frames.len() {
        assert(after[fi] == frames[fi]);
        lemma_frame_index_is(after, id, fi);
    } else if f.page_id == id {
        lemma_frame_index_is(after, id, fi);
    } else {
        assert(after[fi] == f);
        assert forall|j: int| 0 <= j < fi + 1 implies (#[trigger] after[j]).page_id != id by {
            if j < fi {
                assert(after[j] == frames[j]);
            }
        }
        lemma_frame_index_is(after, id, fi + 1);
    }
}

/// The sweep changes pins only, moves the hand by at most `fuel`, and over six
/// steps ends on a frame without a pin.
pub proof fn lemma_swept(frames: Seq<FrameView>, clock: int, fuel: nat)
    requires
        frames.len() == 6,
        0 <= clock,
    ensures
        ({
            let (after, hand) = swept(frames, clock, fuel);
            &&& after.len() == 6
            &&& clock <= hand <= clock + fuel
            &&& forall|i: int|
                0 <= i < 6 ==> (#[trigger] after[i]).page == frames[i].page && after[i].page_id
                    == frames[i].page_id && after[i].dirty == frames[i].dirty
            &&& forall|k: int| clock <= k < hand ==> !(#[trigger] after[k % 6]).pin
            &&& forall|i: int| 0 <= i < 6 && !frames[i].pin ==> !(#[trigger] after[i]).pin
            &&& (hand < clock + fuel ==> !after[hand % 6].pin)
        }),
    decreases fuel,
{
    reveal(swept);
    let i = clock % 6;
    if fuel == 0 || !frames[i].pin {
    } else {
        let next = frames.update(i, FrameView { pin: false, ..frames[i] });
        lemma_swept(next, clock + 1, (fuel - 1) as nat);
        let (after, hand) = swept(next, clock + 1, (fuel - 1) as nat);
        assert forall|k: int| clock <= k < hand implies !(#[trigger] after[k % 6]).pin by {
            if k == clock {
                assert(!next[i].pin);
            }
        }
    }
}


/// The frames of a sound pool hold different pages.
pub proof fn lemma_pool_distinct(pool: PoolView)
    requires
        pool.wf(),
    ensures
        distinct(pool.frames),
{
    assert forall|i: int| 0 <= i < pool.frames.len() implies frame_index(
        pool.frames,
        (#[trigger] pool.frames[i]).page_id,
    ) == i by {
        assert(pool.frame_ok(i));
    }
}

/// Writing a resident page to the file keeps the pool sound and every node.
pub proof fn lemma_flush_frame(pool: PoolView, i: int)
    requires
        pool.wf(),
        0 <= i < pool.frames.len(),
    ensures
        pool.with_file(
            pool.file.page_written(pool.frames[i].page_id, image(pool.frames[i].page)),
        ).wf(),
        pool.with_file(
            pool.file.page_written(pool.frames[i].page_id, image(pool.frames[i].page)),
        ).same_nodes(pool),
        pool.with_file(
            pool.file.page_written(pool.frames[i].page_id, image(pool.frames[i].page)),
        ).on_disk(pool.frames[i].page_id) == Some(pool.frames[i].page.settled()),
        forall|id: u32|
            id != pool.frames[i].page_id ==> #[trigger] pool.with_file(
                pool.file.page_written(pool.frames[i].page_id, image(pool.frames[i].page)),
            ).on_disk(id) == pool.on_disk(id),
{
    let f = pool.frames[i];
    let after = pool.with_file(pool.file.page_written(f.page_id, image(f.page)));
    assert(pool.frame_ok(i));
    crate::codec::lemma_image_len(f.page);
    lemma_page_written(pool.file, f.page_id, image(f.page));
    crate::codec::lemma_wf_writable(f.page);
    law_read_back(f.page, pool.types());
    lemma_settled(f.page, pool.types());
    assert(after.on_disk(f.page_id) == Some(f.page.settled()));
    assert forall|id: u32| id != f.page_id implies #[trigger] after.on_disk(id) == pool.on_disk(
        id,
    ) by {
        assert(after.file.page_at(id) == pool.file.page_at(id));
    }
    assert forall|k: int| 0 <= k < after.frames.len() implies #[trigger] after.frame_ok(k) by {
        assert(pool.frame_ok(k));
        if pool.frames[k].page_id != f.page_id {
            assert(after.on_disk(pool.frames[k].page_id) == pool.on_disk(pool.frames[k].page_id));
        }
    }
    assert forall|id: u32| #[trigger] after.node(id) == pool.node(id) by {
        if pool.resident(id) {
        } else {
            lemma_frame_index(pool.frames, id);
            assert(id != f.page_id);
            assert(after.on_disk(id) == pool.on_disk(id));
        }
    }
}

/// Clearing pins keeps the pool sound, every node and every place.
pub proof fn lemma_repinned(pool: PoolView, frames: Seq<FrameView>)
    requires
        pool.wf(),
        frames.len() == pool.frames.len(),
        forall|i: int|
            0 <= i < frames.len() ==> (#[trigger] frames[i]).page == pool.frames[i].page
                && frames[i].page_id == pool.frames[i].page_id && frames[i].dirty
                == pool.frames[i].dirty,
    ensures
        pool.with_frames(frames).wf(),
        pool.with_frames(frames).same_nodes(pool),
        forall|id: u32| #[trigger] frame_index(frames, id) == frame_index(pool.frames, id),
{
    let mid = pool.with_frames(frames);
    assert forall|id: u32| #[trigger] frame_index(frames, id) == frame_index(pool.frames, id) by {
        lemma_frame_index_same_ids(frames, pool.frames, id);
    }
    assert forall|i: int| 0 <= i < mid.frames.len() implies #[trigger] mid.frame_ok(i) by {
        assert(pool.frame_ok(i));
    }
    assert forall|id: u32| #[trigger] mid.node(id) == pool.node(id) by {
        lemma_frame_index(pool.frames, id);
    }
}

/// A frame may leave: the pool stays sound, its page is no longer resident,
/// and every other page is the node that it was.
pub proof fn lemma_frame_left(pool: PoolView, v: int)
    requires
        pool.wf(),
        0 <= v < pool.frames.len(),
    ensures
        pool.with_frames(pool.frames.remove(v)).wf(),
        forall|id: u32|
            id != pool.frames[v].page_id ==> #[trigger] pool.with_frames(pool.frames.remove(v)).node(
                id,
            ) == pool.node(id),
        forall|id: u32|
            !pool.resident(id) ==> !(#[trigger] pool.with_frames(pool.frames.remove(v)).resident(id)),
        !pool.with_frames(pool.frames.remove(v)).resident(pool.frames[v].page_id),
        pool.with_frames(pool.frames.remove(v)).node(pool.frames[v].page_id) == (match pool.on_disk(
            pool.frames[v].page_id,
        ) {
            Some(p) => Some(p.node()),
            None => None::<NodeView>,
        }),
{
    let frames = pool.frames;
    let out = frames[v];
    let after = pool.with_frames(frames.remove(v));
    lemma_pool_distinct(pool);
    assert forall|k: int| 0 <= k < after.frames.len() implies #[trigger] after.frame_ok(k) by {
        let o = if k < v { k } else { k + 1 };
        assert(after.frames[k] == frames[o]);
        assert(pool.frame_ok(o));
        lemma_frame_index_remove(frames, v, frames[o].page_id);
        if frames[o].page_id == out.page_id {
            lemma_distinct(frames, o, v);
        }
    }
    assert forall|id: u32| id != out.page_id implies #[trigger] after.node(id) == pool.node(id) by {
        lemma_frame_index(frames, id);
        lemma_frame_index_remove(frames, v, id);
        let fi = frame_index(frames, id);
        if fi < frames.len() {
            let k = if fi < v { fi } else { fi - 1 };
            assert(after.frames[k] == frames[fi]);
        }
    }
    assert forall|id: u32| !pool.resident(id) implies !(#[trigger] after.resident(id)) by {
        lemma_frame_index(frames, id);
        lemma_frame_index_remove(frames, v, id);
    }
    lemma_frame_index_remove(frames, v, out.page_id);
}

/// Making room keeps the pool sound and every node, and leaves room.
pub proof fn lemma_evicted(pool: PoolView)
    requires
        pool.wf(),
    ensures
        pool.evicted().wf(),
        pool.evicted().same_nodes(pool),
        pool.evicted().frames.len() < 6,
        forall|id: u32| !pool.resident(id) ==> !(#[trigger] pool.evicted().resident(id)),
        forall|id: u32|
            !pool.resident(id) ==> #[trigger] pool.evicted().on_disk(id) == pool.on_disk(id),
{
    if pool.frames.len() == 6 {
        let (frames, hand) = swept(pool.frames, pool.clock as int, 6);
        lemma_swept(pool.frames, pool.clock as int, 6);
        let v = hand % 6;
        let out = frames[v];
        let mid = pool.with_frames(frames);
        lemma_repinned(pool, frames);
        lemma_evicted_step(mid, v, ((hand + 1) % 6) as usize);
        assert(pool.evicted() == mid.without(v, ((hand + 1) % 6) as usize));
        let after = pool.evicted();
        assert forall|id: u32| #[trigger] after.node(id) == pool.node(id) by {
            assert(mid.node(id) == pool.node(id));
        }
        assert forall|id: u32| !pool.resident(id) implies !(#[trigger] after.resident(id)) by {
            assert(frame_index(frames, id) == frame_index(pool.frames, id));
            assert(!mid.resident(id));
        }
        assert forall|id: u32| !pool.resident(id) implies #[trigger] after.on_disk(id)
            == pool.on_disk(id) by {
            assert(frame_index(frames, id) == frame_index(pool.frames, id));
            assert(!mid.resident(id));
            assert(mid.on_disk(id) == pool.on_disk(id));
        }
    }
}

/// A frame may leave once its page is written out if dirty: the pool stays
/// sound and keeps every node.
pub proof fn lemma_evicted_step(pool: PoolView, v: int, clock: usize)
    requires
        pool.wf(),
        0 <= v < pool.frames.len(),
        clock < 6,
    ensures
        pool.without(v, clock).wf(),
        pool.without(v, clock).same_nodes(pool),
        pool.without(v, clock).frames.len() == pool.frames.len() - 1,
        forall|id: u32| !pool.resident(id) ==> !(#[trigger] pool.without(v, clock).resident(id)),
        forall|id: u32|
            !pool.resident(id) ==> #[trigger] pool.without(v, clock).on_disk(id) == pool.on_disk(id),
{
    let out = pool.frames[v];
    lemma_flush_frame(pool, v);
    let wrote = if out.dirty {
        pool.with_file(pool.file.page_written(out.page_id, image(out.page)))
    } else {
        pool
    };
    assert(wrote.frame_ok(v));
    assert(wrote.on_disk(out.page_id) matches Some(p) && p.node() == out.page.node()) by {
        assert(pool.frame_ok(v));
        lemma_settled(out.page, pool.types());
    }
    lemma_frame_left(wrote, v);
    lemma_frame_index(wrote.frames, out.page_id);
    let base = wrote.with_frames(wrote.frames.remove(v));
    let after = pool.without(v, clock);
    assert(after.frames == base.frames && after.file == base.file);
    assert(after.wf()) by {
        assert forall|k: int| 0 <= k < after.frames.len() implies #[trigger] after.frame_ok(k) by {
            assert(base.frame_ok(k));
        }
    }
    assert forall|id: u32| #[trigger] after.node(id) == pool.node(id) by {
        assert(after.node(id) == base.node(id));
        assert(wrote.node(id) == pool.node(id));
        if id == out.page_id {
            assert(wrote.node(id) == Some(out.page.node()));
        } else {
            assert(base.node(id) == wrote.node(id));
        }
    }
    assert forall|id: u32| !pool.resident(id) implies !(#[trigger] after.resident(id)) by {
        assert(!wrote.resident(id));
        assert(!base.resident(id));
        assert(after.resident(id) == base.resident(id));
    }
    assert forall|id: u32| !pool.resident(id) implies #[trigger] after.on_disk(id) == pool.on_disk(
        id,
    ) by {
        lemma_frame_index(pool.frames, id);
        assert(id != out.page_id);
        assert(wrote.on_disk(id) == pool.on_disk(id));
        assert(after.on_disk(id) == wrote.on_disk(id));
    }
}

/// A page read from the file into a new last frame keeps the pool sound and
/// every node.
pub proof fn lemma_loaded(pool: PoolView, id: u32)
    requires
        pool.wf(),
        pool.frames.len() < 6,
        !pool.resident(id),
        pool.file.in_reach(id),
        pool.on_disk(id) is Some,
    ensures
        pool.loaded(id, pool.on_disk(id)->0).wf(),
        pool.loaded(id, pool.on_disk(id)->0).same_nodes(pool),
        frame_index(pool.loaded(id, pool.on_disk(id)->0).frames, id) == pool.frames.len(),
{
    let page = pool.on_disk(id)->0;
    let f = FrameView { page, page_id: id, pin: false, dirty: false };
    let after = pool.loaded(id, page);
    lemma_decoded_conforms(pool.types(), pool.file.page_at(id));
    assert forall|other: u32| true implies frame_index(after.frames, other) == (if frame_index(
        pool.frames,
        other,
    ) < pool.frames.len() {
        frame_index(pool.frames, other)
    } else if id == other {
        pool.frames.len() as int
    } else {
        pool.frames.len() as int + 1
    }) by {
        lemma_frame_index_push(pool.frames, f, other);
    }
    assert forall|k: int| 0 <= k < after.frames.len() implies #[trigger] after.frame_ok(k) by {
        if k < pool.frames.len() {
            assert(pool.frame_ok(k));
            assert(after.frames[k] == pool.frames[k]);
        }
    }
    assert forall|other: u32| #[trigger] after.node(other) == pool.node(other) by {
        lemma_frame_index(pool.frames, other);
        if pool.resident(other) {
            assert(after.frames[frame_index(pool.frames, other)] == pool.frames[frame_index(
                pool.frames,
                other,
            )]);
        }
    }
}

/// Marks change no page: a touched pool is sound and has every node as before.
pub proof fn lemma_touched(pool: PoolView, i: int, dirty: bool)
    requires
        pool.wf(),
        0 <= i < pool.frames.len(),
    ensures
        pool.touched(i, dirty).wf(),
        pool.touched(i, dirty).same_nodes(pool),
        forall|id: u32|
            frame_index(#[trigger] pool.touched(i, dirty).frames, id) == frame_index(pool.frames, id),
{
    let after = pool.touched(i, dirty);
    assert forall|id: u32|
        frame_index(#[trigger] pool.touched(i, dirty).frames, id) == frame_index(
            pool.frames,
            id,
        ) by {
        lemma_frame_index_same_ids(after.frames, pool.frames, id);
    }
    assert forall|k: int| 0 <= k < after.frames.len() implies #[trigger] after.frame_ok(k) by {
        assert(pool.frame_ok(k));
    }
    assert forall|id: u32| #[trigger] after.node(id) == pool.node(id) by {
        lemma_frame_index(pool.frames, id);
    }
}

/// A pool that hands out a page stays sound, keeps every node, and has the page
/// resident.
pub proof fn lemma_fetched(pool: PoolView, id: u32, dirty: bool)
    requires
        pool.wf(),
        pool.fetch_error(id) is None,
    ensures
        pool.brought(id).wf(),
        pool.brought(id).same_nodes(pool),
        pool.brought(id).resident(id),
        pool.fetched(id, dirty).wf(),
        pool.fetched(id, dirty).same_nodes(pool),
        pool.fetched(id, dirty).resident(id),
        frame_index(pool.fetched(id, dirty).frames, id) == frame_index(pool.brought(id).frames, id),
        pool.node(id) == Some(
            pool.fetched(id, dirty).frames[frame_index(pool.fetched(id, dirty).frames, id)].page.node(),
        ),
        dirty ==> pool.fetched(id, dirty).frames[frame_index(
            pool.fetched(id, dirty).frames,
            id,
        )].dirty,
{
    let mid = pool.brought(id);
    if !pool.resident(id) {
        lemma_evicted(pool);
        let e = pool.evicted();
        assert(!e.resident(id));
        assert(e.on_disk(id) == pool.on_disk(id));
        lemma_loaded(e, id);
        assert(mid.same_nodes(pool)) by {
            assert forall|other: u32| #[trigger] mid.node(other) == pool.node(other) by {
                assert(e.node(other) == pool.node(other));
            }
        }
    }
    lemma_frame_index(mid.frames, id);
    let i = frame_index(mid.frames, id);
    lemma_touched(mid, i, dirty);
    let after = pool.fetched(id, dirty);
    assert(frame_index(after.frames, id) == i);
    assert(after.same_nodes(pool)) by {
        assert forall|other: u32| #[trigger] after.node(other) == pool.node(other) by {
            assert(mid.node(other) == pool.node(other));
        }
    }
    assert(after.node(id) == pool.node(id));
}

/// A dirty frame may take any sound page that matches the schema: the pool
/// stays sound, the frame's page is that node, and every other node is as it
/// was.
pub proof fn lemma_with_page(pool: PoolView, i: int, page: PageView)
    requires
        pool.wf(),
        0 <= i < pool.frames.len(),
        pool.frames[i].dirty,
        page.wf(),
        page.conforms(pool.types()),
    ensures
        pool.with_page(i, page).wf(),
        pool.with_page(i, page).node(pool.frames[i].page_id) == Some(page.node()),
        forall|id: u32|
            id != pool.frames[i].page_id ==> #[trigger] pool.with_page(i, page).node(id)
                == pool.node(id),
        pool.with_page(i, page).types() == pool.types(),
        pool.with_page(i, page).file == pool.file,
{
    let after = pool.with_page(i, page);
    assert forall|id: u32| frame_index(after.frames, id) == frame_index(pool.frames, id) by {
        lemma_frame_index_same_ids(after.frames, pool.frames, id);
    }
    assert forall|k: int| 0 <= k < after.frames.len() implies #[trigger] after.frame_ok(k) by {
        assert(pool.frame_ok(k));
    }
    assert(pool.frame_ok(i));
    assert forall|id: u32| id != pool.frames[i].page_id implies #[trigger] after.node(id)
        == pool.node(id) by {
        lemma_frame_index(pool.frames, id);
    }
}


/// An index that agrees with some frames agrees with any frames of the same
/// ids in the same places.
pub proof fn lemma_index_same_ids(index: Map<u32, usize>, a: Seq<FrameView>, b: Seq<FrameView>)
    requires
        index_ok(index, a),
        a.len() == b.len(),
        forall|i: int| 0 <= i < a.len() ==> (#[trigger] a[i]).page_id == b[i].page_id,
    ensures
        index_ok(index, b),
{
    assert forall|id: u32|
        (#[trigger] index.contains_key(id)) == (frame_index(b, id) < b.len()) && (
        index.contains_key(id) ==> index[id] == frame_index(b, id)) by {
        lemma_frame_index_same_ids(a, b, id);
    }
}

impl BufferPool {
    /// A pool over `file` with no page in memory.
    pub fn new(file: Table) -> (made: BufferPool)
        requires
            file@.wf(),
        ensures
            made@ == (PoolView { file: file@, frames: Seq::empty(), clock: 0 }),
            made.wf(),
    {
        let made = BufferPool { file, pool: Vec::new(), table: HashMap::new(), clock: 0 };
        assert(made@.frames =~= Seq::empty());
        made
    }

    /// Writes into the index, for every frame, where the frame stands.
    #[verifier::rlimit(50)]
    pub fn reindex(&mut self)
        requires
            distinct(old(self)@.frames),
            forall|id: u32| #[trigger] old(self).table@.contains_key(id) ==> old(self)@.resident(id),
        ensures
            final(self)@ == old(self)@,
            final(self).file == old(self).file,
            final(self).pool == old(self).pool,
            index_ok(final(self).table@, final(self)@.frames),
    {
        let ghost frames = self@.frames;
        let mut i: usize = 0;
        while i < self.pool.len()
            invariant
                i <= self.pool.len(),
                self.pool == old(self).pool,
                self.file == old(self).file,
                self.clock == old(self).clock,
                frames == self@.frames,
                distinct(frames),
                forall|id: u32|
                    #[trigger] self.table@.contains_key(id) ==> frame_index(frames, id) < frames.len(),
                forall|j: int|
                    0 <= j < i ==> self.table@.contains_key((#[trigger] frames[j]).page_id)
                        && self.table@[frames[j].page_id] == j,
            decreases self.pool.len() - i,
        {
            let id: u32 = self.pool[i].page_id;
            assert(frames[i as int] == self.pool[i as int]@);
            proof {
                assert forall|j: int| 0 <= j < i implies (#[trigger] frames[j]).page_id != id by {
                    if frames[j].page_id == id {
                        lemma_distinct(frames, j, i as int);
                    }
                }
            }
            self.table.insert(id, i);
            i += 1;
        }
        assert forall|id: u32|
            (#[trigger] self.table@.contains_key(id)) == (frame_index(frames, id) < frames.len()) && (
            self.table@.contains_key(id) ==> self.table@[id] == frame_index(frames, id)) by {
            lemma_frame_index(frames, id);
            let fi = frame_index(frames, id);
            if fi < frames.len() {
                assert(self.table@.contains_key(frames[fi].page_id));
            }
        }
    }

    /// Writes the page of a frame that left the pool to the file.
    pub fn flush_page(&mut self, frame: Frame)
        requires
            old(self).file@.wf(),
            frame@.page.wf(),
            old(self).file@.in_reach(frame.page_id),
        ensures
            final(self).file@ == old(self).file@.page_written(frame.page_id, image(frame@.page)),
            final(self).pool == old(self).pool,
            final(self).table == old(self).table,
            final(self).clock == old(self).clock,
            final(self).file@.wf(),
    {
        proof {
            crate::codec::lemma_wf_writable(frame@.page);
        }
        let buffer: [u8; 4096] = frame.page.to_buff();
        self.file.write_page(&buffer, frame.page_id);
    }

    /// Makes room for one more page, if the pool is full: the clock sweeps to
    /// the first frame without a pin, clearing the pins that it passes; that
    /// frame leaves the pool, its page written to the file first if dirty.
    #[verifier::rlimit(50)]
    pub fn victim(&mut self)
        requires
            old(self).wf(),
        ensures
            final(self)@ == old(self)@.evicted(),
            final(self).wf(),
    {
        proof {
            lemma_evicted(self@);
        }
        if self.pool.len() == POOL_SIZE {
            let ghost start = self@;
            let mut steps: usize = 0;
            loop
                invariant_except_break
                    self.pool.len() == 6,
                    steps <= 6,
                    self.file == old(self).file,
                    self.table == old(self).table,
                    self.clock == start.clock + steps,
                    start == old(self)@,
                    start.wf(),
                    start.frames.len() == 6,
                    index_ok(old(self).table@, start.frames),
                    start.evicted().wf(),
                    swept(start.frames, start.clock as int, 6) == swept(
                        self@.frames,
                        self.clock as int,
                        (6 - steps) as nat,
                    ),
                    forall|i: int|
                        0 <= i < 6 ==> (#[trigger] self@.frames[i]).page == start.frames[i].page
                            && self@.frames[i].page_id == start.frames[i].page_id
                            && self@.frames[i].dirty == start.frames[i].dirty,
                    forall|k: int| start.clock <= k < self.clock ==> !(#[trigger] self@.frames[k % 6]).pin,
                ensures
                    self@ == start.evicted(),
                    self.wf(),
                decreases 7 - steps,
            {
                let at: usize = self.clock % POOL_SIZE;
                let ghost frames = self@.frames;
                assert(frames[at as int] == self.pool[at as int]@);
                if self.pool[at].pin {
                    proof {
                        reveal(swept);
                        if steps == 6 {
                            assert(!frames[(start.clock as int) % 6].pin);
                        }
                    }
                    let frame: &mut Frame = &mut self.pool[at];
                    frame.pin = false;
                    self.clock = self.clock + 1;
                    steps = steps + 1;
                    assert(self@.frames =~= frames.update(
                        at as int,
                        FrameView { pin: false, ..frames[at as int] },
                    ));
                } else {
                    proof {
                        reveal(swept);
                        lemma_repinned(start, frames);
                        lemma_pool_distinct(start.with_frames(frames));
                        lemma_index_same_ids(old(self).table@, start.frames, frames);
                    }
                    let id: u32 = self.pool[at].page_id;
                    let _ = self.table.remove(&id);
                    let frame: Frame = self.pool.remove(at);
                    assert(self@.frames =~= frames.remove(at as int));
                    assert(frame@ == frames[at as int]);
                    assert(start.with_frames(frames).frame_ok(at as int));
                    if frame.dirty {
                        self.flush_page(frame);
                    }
                    self.clock = (self.clock + 1) % POOL_SIZE;
                    assert(self@ == start.evicted());
                    proof {
                        lemma_pool_distinct(self@);
                        assert forall|other: u32| #[trigger]
                            self.table@.contains_key(other) implies self@.resident(other) by {
                            lemma_frame_index_remove(frames, at as int, other);
                            lemma_frame_index(frames, other);
                        }
                    }
                    self.reindex();
                    break ;
                }
            }
        }
    }

    /// Reads page `page_id` from the table file.
    pub fn load_from_disk(&self, page_id: u32) -> (read: Result<Page, StorageError>)
        requires
            self@.file.in_reach(page_id),
        ensures
            match read {
                Ok(page) => self@.on_disk(page_id) == Some(page@),
                Err(e) => self@.on_disk(page_id) is None && e == StorageError::Corrupt,
            },
    {
        let buffer: [u8; 4096] = self.file.read_page(page_id);
        let types: Vec<u8> = copy_range(
            self.file.column_types.as_slice(),
            0,
            self.file.column_types.len(),
        );
        assert(types@ =~= self.file.column_types@);
        Page::buff_to_page(types, buffer)
    }

    /// The frame of page `page_id`, which is brought into the pool if it is
    /// not there: room is made, and the page read into a new last frame.
    /// Nothing changes if the page cannot be had.
    #[verifier::rlimit(50)]
    pub fn get_index(&mut self, page_id: u32) -> (found: Result<usize, StorageError>)
        requires
            old(self).wf(),
        ensures
            match found {
                Ok(i) => old(self)@.fetch_error(page_id) is None && final(self)@ == old(self)@.brought(
                    page_id,
                ) && i == frame_index(final(self)@.frames, page_id) && i < final(self).pool.len(),
                Err(e) => old(self)@.fetch_error(page_id) == Some(e) && final(self)@ == old(self)@,
            },
            final(self).wf(),
    {
        proof {
            lemma_frame_index(self@.frames, page_id);
        }
        match self.table.get(&page_id) {
            Some(i) => {
                return Ok(*i);
            },
            None => {},
        }
        if self.file.page_start(page_id).is_none() {
            return Err(StorageError::TooLarge);
        }
        let page: Page = match self.load_from_disk(page_id) {
            Ok(page) => page,
            Err(e) => {
                return Err(e);
            },
        };
        proof {
            lemma_evicted(self@);
            lemma_loaded(self@.evicted(), page_id);
        }
        self.victim();
        let ghost before = self@;
        self.pool.push(Frame { page, page_id, pin: false, dirty: false });
        assert(self@.frames =~= before.frames.push(
            FrameView { page: page@, page_id, pin: false, dirty: false },
        ));
        proof {
            lemma_pool_distinct(self@);
            assert forall|other: u32| #[trigger]
                self.table@.contains_key(other) implies self@.resident(other) by {
                lemma_frame_index_push(
                    before.frames,
                    FrameView { page: page@, page_id, pin: false, dirty: false },
                    other,
                );
            }
        }
        self.reindex();
        Ok(self.pool.len() - 1)
    }

    /// Page `page_id`, to be read. The page is brought into the pool if need be,
    /// and pinned. No page is changed.
    #[verifier::rlimit(50)]
    pub fn get(&mut self, page_id: u32) -> (found: Result<&Page, StorageError>)
        requires
            old(self).wf(),
        ensures
            match found {
                Ok(page) => old(self)@.fetch_error(page_id) is None && final(self)@ == old(self)@.fetched(page_id, false) && Some(page@) == final(self)@.page_of(page_id) && Some(
                    page@.node(),
                ) == old(self)@.node(page_id) && page@.wf() && page@.conforms(old(self)@.types()),
                Err(e) => old(self)@.fetch_error(page_id) == Some(e) && final(self)@ == old(self)@,
            },
            final(self).wf(),
            final(self)@.same_nodes(old(self)@),
    {
        proof {
            if self@.fetch_error(page_id) is None {
                lemma_fetched(self@, page_id, false);
            }
        }
        let at: usize = match self.get_index(page_id) {
            Ok(at) => at,
            Err(e) => {
                return Err(e);
            },
        };
        let ghost mid = self@;
        let ghost index = self.table@;
        let frame: &mut Frame = &mut self.pool[at];
        frame.pin = true;
        assert(self@.frames =~= mid.touched(at as int, false).frames);
        proof {
            lemma_index_same_ids(index, mid.frames, self@.frames);
            assert(self@.frame_ok(at as int));
        }
        Ok(&self.pool[at].page)
    }

    /// Page `page_id`, to be changed. The page is brought into the pool if need
    /// be, pinned and marked dirty; what the caller then does to it is what the
    /// pool holds as page `page_id`.
    #[verifier::rlimit(50)]
    pub fn get_mut(&mut self, page_id: u32) -> (found: Result<&mut Page, StorageError>)
        requires
            old(self).wf(),
        ensures
            match found {
                Ok(page) => {
                    let mid = old(self)@.fetched(page_id, true);
                    let at = frame_index(mid.frames, page_id);
                    &&& old(self)@.fetch_error(page_id) is None
                    &&& page@ == mid.frames[at].page
                    &&& final(self)@ == mid.with_page(at, final(page)@)
                    &&& index_ok(final(self).table@, mid.frames)
                },
                Err(e) => old(self)@.fetch_error(page_id) == Some(e) && final(self)@ == old(self)@
                    && final(self).wf(),
            },
    {
        proof {
            if self@.fetch_error(page_id) is None {
                lemma_fetched(self@, page_id, true);
            }
        }
        let at: usize = match self.get_index(page_id) {
            Ok(at) => at,
            Err(e) => {
                return Err(e);
            },
        };
        let ghost mid = self@;
        let ghost index = self.table@;
        proof {
            lemma_index_same_ids(index, mid.frames, mid.touched(at as int, true).frames);
        }
        let frame: &mut Frame = &mut self.pool[at];
        frame.pin = true;
        frame.dirty = true;
        Ok(&mut frame.page)
    }
}


/// A change of the file that leaves the schema and the resident pages' bytes
/// alone keeps the pool sound, and keeps every node whose bytes it leaves
/// alone.
pub proof fn lemma_file_changed(pool: PoolView, file: TableView)
    requires
        pool.wf(),
        file.wf(),
        file.column_types == pool.file.column_types,
        file.column_number == pool.file.column_number,
        forall|i: int|
            0 <= i < pool.frames.len() ==> file.page_at((#[trigger] pool.frames[i]).page_id)
                == pool.file.page_at(pool.frames[i].page_id),
    ensures
        pool.with_file(file).wf(),
        forall|id: u32|
            pool.resident(id) || file.page_at(id) == pool.file.page_at(id) ==> #[trigger] pool.with_file(
                file,
            ).node(id) == pool.node(id),
{
    let after = pool.with_file(file);
    assert forall|k: int| 0 <= k < after.frames.len() implies #[trigger] after.frame_ok(k) by {
        assert(pool.frame_ok(k));
        assert(file.page_at(pool.frames[k].page_id) == pool.file.page_at(pool.frames[k].page_id));
    }
}

/// Without the frame of a page the pool stays sound, the page is no longer
/// resident, and every other page is the node that it was.
pub proof fn lemma_dropped(pool: PoolView, id: u32)
    requires
        pool.wf(),
    ensures
        pool.dropped(id).wf(),
        !pool.dropped(id).resident(id),
        forall|other: u32| other != id ==> #[trigger] pool.dropped(id).node(other) == pool.node(other),
        forall|other: u32|
            !pool.resident(other) ==> !(#[trigger] pool.dropped(id).resident(other)),
        pool.dropped(id).file == pool.file,
        pool.dropped(id).frames.len() <= pool.frames.len(),
{
    lemma_frame_index(pool.frames, id);
    if pool.resident(id) {
        lemma_frame_left(pool, frame_index(pool.frames, id));
    }
}

/// A page of zero bytes is no page.
pub proof fn lemma_blank_is_no_page(types: Seq<u8>)
    ensures
        decode_page(types, Seq::new(4096, |i: int| 0u8)) is None,
{
    reveal(decode_page);
    let buf = Seq::new(4096, |i: int| 0u8);
    assert(crate::codec::parse_slots(buf, false, 0) == Some((Seq::<crate::pages::SlotView>::empty(), 5int)));
    assert(crate::bytes::read_be16(buf, 1) == 0);
}

impl PoolView {
    /// Why page `page` cannot be created, if it cannot: it cannot be written,
    /// its rows do not match the table's columns, or the table has no place
    /// for it. What the page's own free-space pointer says does not count.
    pub open spec fn create_error(self, page: PageView) -> Option<StorageError> {
        if !page.writable() {
            Some(StorageError::BadPage)
        } else if !page.conforms(self.types()) {
            Some(StorageError::RowMismatch)
        } else if !self.file.can_create() {
            Some(StorageError::TooLarge)
        } else {
            None
        }
    }

    /// The pool after `page` was created: the table stores it under the next
    /// id, a frame that stood under that id is gone, and the page is handed
    /// out for change from the file.
    pub open spec fn created(self, page: PageView) -> PoolView {
        self.dropped(self.file.next_id()).with_file(self.file.page_created(image(page))).fetched(
            self.file.next_id(),
            true,
        )
    }

    /// The pool after page `id` was removed: its frame gone, the page freed in
    /// the table.
    pub open spec fn removed(self, id: u32) -> PoolView {
        self.dropped(id).with_file(self.file.page_removed(id))
    }

    /// Why `page` cannot be stored as page `id`, if it cannot: it cannot be
    /// written, its rows do not match the table's columns, or page `id` lies
    /// out of reach. What the page's own free-space pointer says does not
    /// count.
    pub open spec fn put_error(self, id: u32, page: PageView) -> Option<StorageError> {
        if !page.writable() {
            Some(StorageError::BadPage)
        } else if !page.conforms(self.types()) {
            Some(StorageError::RowMismatch)
        } else if !self.file.in_reach(id) {
            Some(StorageError::TooLarge)
        } else {
            None
        }
    }

    /// The pool after `page` was stored as page `id`: written to the file, and
    /// put in the page's frame, with its free-space pointer at its lowest cell,
    /// if the page is resident.
    pub open spec fn page_put(self, id: u32, page: PageView) -> PoolView {
        PoolView {
            file: self.file.page_written(id, image(page)),
            frames: if self.resident(id) {
                self.frames.update(
                    frame_index(self.frames, id),
                    FrameView { page: page.levelled(), ..self.frames[frame_index(self.frames, id)] },
                )
            } else {
                self.frames
            },
            clock: self.clock,
        }
    }
}

/// Removing a page keeps the pool sound; the page is no node any more, and
/// every other page is the node that it was.
pub proof fn lemma_removed(pool: PoolView, id: u32)
    requires
        pool.wf(),
    ensures
        pool.removed(id).wf(),
        pool.removed(id).node(id) is None,
        forall|other: u32| other != id ==> #[trigger] pool.removed(id).node(other) == pool.node(other),
        pool.removed(id).types() == pool.types(),
        pool.removed(id).file.column_number == pool.file.column_number,
{
    let d = pool.dropped(id);
    lemma_dropped(pool, id);
    lemma_page_removed(pool.file, id);
    let file = pool.file.page_removed(id);
    assert forall|i: int| 0 <= i < d.frames.len() implies file.page_at(
        (#[trigger] d.frames[i]).page_id,
    ) == d.file.page_at(d.frames[i].page_id) by {
        assert(d.frame_ok(i));
        if d.frames[i].page_id == id {
            lemma_frame_index(d.frames, id);
        }
    }
    lemma_file_changed(d, file);
    lemma_blank_is_no_page(pool.types());
    let after = pool.removed(id);
    assert forall|other: u32| other != id implies #[trigger] after.node(other) == pool.node(
        other,
    ) by {
        assert(file.page_at(other) == pool.file.page_at(other));
        assert(d.node(other) == pool.node(other));
    }
}

/// Storing a page keeps the pool sound; the page is the stored node, and every
/// other page is the node that it was.
pub proof fn lemma_page_put(pool: PoolView, id: u32, page: PageView)
    requires
        pool.wf(),
        pool.put_error(id, page) is None,
    ensures
        pool.page_put(id, page).wf(),
        pool.page_put(id, page).node(id) == Some(page.node()),
        forall|other: u32|
            other != id ==> #[trigger] pool.page_put(id, page).node(other) == pool.node(other),
        pool.page_put(id, page).types() == pool.types(),
        pool.page_put(id, page).file.column_number == pool.file.column_number,
{
    let after = pool.page_put(id, page);
    crate::codec::lemma_image_len(page);
    lemma_page_written(pool.file, id, image(page));
    law_read_back(page, pool.types());
    crate::codec::lemma_levelled(page, pool.types());
    lemma_frame_index(pool.frames, id);
    assert forall|other: u32| frame_index(after.frames, other) == frame_index(pool.frames, other) by {
        lemma_frame_index_same_ids(after.frames, pool.frames, other);
    }
    assert(after.on_disk(id) == Some(page.settled()));
    assert forall|k: int| 0 <= k < after.frames.len() implies #[trigger] after.frame_ok(k) by {
        assert(pool.frame_ok(k));
        if pool.frames[k].page_id != id {
            assert(after.file.page_at(pool.frames[k].page_id) == pool.file.page_at(
                pool.frames[k].page_id,
            ));
        }
    }
    assert forall|other: u32| other != id implies #[trigger] after.node(other) == pool.node(
        other,
    ) by {
        lemma_frame_index(pool.frames, other);
        assert(after.file.page_at(other) == pool.file.page_at(other));
    }
}

/// Creating a page keeps the pool sound; the new page is the created node,
/// and every other page is the node that it was.
pub proof fn lemma_created(pool: PoolView, page: PageView)
    requires
        pool.wf(),
        pool.create_error(page) is None,
    ensures
        pool.created(page).wf(),
        pool.created(page).node(pool.file.next_id()) == Some(page.node()),
        forall|other: u32|
            other != pool.file.next_id() ==> #[trigger] pool.created(page).node(other) == pool.node(
                other,
            ),
        pool.created(page).types() == pool.types(),
        pool.created(page).file.column_number == pool.file.column_number,
        pool.created(page).resident(pool.file.next_id()),
        pool.dropped(pool.file.next_id()).with_file(pool.file.page_created(image(page))).wf(),
        pool.dropped(pool.file.next_id()).with_file(
            pool.file.page_created(image(page)),
        ).fetch_error(pool.file.next_id()) is None,
{
    let id = pool.file.next_id();
    let d = pool.dropped(id);
    lemma_dropped(pool, id);
    crate::codec::lemma_image_len(page);
    lemma_page_created(pool.file, image(page));
    let file = pool.file.page_created(image(page));
    assert forall|i: int| 0 <= i < d.frames.len() implies file.page_at(
        (#[trigger] d.frames[i]).page_id,
    ) == d.file.page_at(d.frames[i].page_id) by {
        assert(d.frame_ok(i));
        if d.frames[i].page_id == id {
            lemma_frame_index(d.frames, id);
        }
    }
    lemma_file_changed(d, file);
    let w = d.with_file(file);
    law_read_back(page, pool.types());
    assert(w.on_disk(id) == Some(page.settled()));
    assert(!w.resident(id));
    assert(w.fetch_error(id) is None);
    lemma_fetched(w, id, true);
    let after = pool.created(page);
    assert(after.node(id) == w.node(id));
    assert forall|other: u32| other != id implies #[trigger] after.node(other) == pool.node(
        other,
    ) by {
        assert(after.node(other) == w.node(other));
        assert(file.page_at(other) == pool.file.page_at(other));
        assert(w.node(other) == d.node(other));
        assert(d.node(other) == pool.node(other));
    }
}


/// Writing the dirty pages out keeps the pool sound and every node, and
/// afterwards the file holds each of the frames written so far.
pub proof fn lemma_flushed(pool: PoolView, n: int)
    requires
        pool.wf(),
        0 <= n <= pool.frames.len(),
    ensures
        pool.flushed(n).wf(),
        pool.flushed(n).same_nodes(pool),
        pool.flushed(n).frames == pool.frames,
        pool.flushed(n).clock == pool.clock,
        forall|i: int|
            0 <= i < n ==> (pool.flushed(n).on_disk((#[trigger] pool.frames[i]).page_id) matches Some(
                p,
            ) && p.node() == pool.frames[i].page.node()),
    decreases n,
{
    if n > 0 {
        lemma_flushed(pool, n - 1);
        let before = pool.flushed(n - 1);
        let after = pool.flushed(n);
        let f = pool.frames[n - 1];
        lemma_flush_frame(before, n - 1);
        lemma_pool_distinct(pool);
        assert(before.frame_ok(n - 1));
        assert forall|id: u32| #[trigger] after.node(id) == pool.node(id) by {
            assert(before.node(id) == pool.node(id));
        }
        assert forall|i: int| 0 <= i < n implies (after.on_disk(
            (#[trigger] pool.frames[i]).page_id,
        ) matches Some(p) && p.node() == pool.frames[i].page.node()) by {
            if i == n - 1 {
                lemma_settled(f.page, pool.types());
            } else {
                if pool.frames[i].page_id == f.page_id {
                    lemma_distinct(pool.frames, i, n - 1);
                }
                if f.dirty {
                    assert(after.on_disk(pool.frames[i].page_id) == before.on_disk(
                        pool.frames[i].page_id,
                    ));
                }
            }
        }
    }
}

impl BufferPool {
    /// Takes the frame of page `page_id` out of the pool, if there is one. What
    /// the frame held is not written to the file.
    #[verifier::rlimit(50)]
    pub fn drop_frame(&mut self, page_id: u32)
        requires
            old(self).wf(),
        ensures
            final(self)@ == old(self)@.dropped(page_id),
            final(self).wf(),
    {
        proof {
            lemma_dropped(self@, page_id);
            lemma_frame_index(self@.frames, page_id);
        }
        let ghost frames = self@.frames;
        let found: Option<usize> = self.table.remove(&page_id);
        match found {
            Some(at) => {
                let _ = self.pool.remove(at);
                assert(self@.frames =~= frames.remove(at as int));
                proof {
                    lemma_pool_distinct(self@);
                    lemma_pool_distinct(old(self)@);
                    assert forall|other: u32| #[trigger]
                        self.table@.contains_key(other) implies self@.resident(other) by {
                        lemma_frame_index_remove(frames, at as int, other);
                        lemma_frame_index(frames, other);
                    }
                }
                self.reindex();
            },
            None => {
                assert(self.table@ =~= old(self).table@);
            },
        }
    }

    /// Frees page `page_id`: its frame leaves the pool, and the table zeroes the
    /// page and lists its id as free. Nothing changes if it is refused.
    #[verifier::rlimit(50)]
    pub fn remove_page(&mut self, page_id: u32) -> (done: Result<(), StorageError>)
        requires
            old(self).wf(),
        ensures
            match done {
                Ok(()) => old(self)@.file.in_reach(page_id) && final(self)@ == old(self)@.removed(
                    page_id,
                ),
                Err(e) => !old(self)@.file.in_reach(page_id) && e == StorageError::TooLarge && final(self)@ == old(self)@,
            },
            final(self).wf(),
    {
        if self.file.page_start(page_id).is_none() {
            return Err(StorageError::TooLarge);
        }
        proof {
            lemma_removed(self@, page_id);
        }
        self.drop_frame(page_id);
        match self.file.remove_page(page_id) {
            Ok(()) => Ok(()),
            Err(e) => Err(e),
        }
    }

    /// Stores `page` as page `page_id`: at once in the file, and in the page's
    /// frame if the page is resident. The frame holds the page with its
    /// free-space pointer at its lowest cell, as it is read from the file.
    /// Nothing changes if it is refused.
    #[verifier::rlimit(50)]
    pub fn update_page(&mut self, page: Page, page_id: u32) -> (done: Result<(), StorageError>)
        requires
            old(self).wf(),
        ensures
            match done {
                Ok(()) => old(self)@.put_error(page_id, page@) is None && final(self)@ == old(self)@.page_put(page_id, page@),
                Err(e) => old(self)@.put_error(page_id, page@) == Some(e) && final(self)@ == old(self)@,
            },
            final(self).wf(),
    {
        let ghost given = page@;
        let mut page = page;
        page.free_space_pointer = page.lowest_pointer();
        assert(page@ == given.levelled());
        if !page.is_wf() {
            return Err(StorageError::BadPage);
        }
        proof {
            crate::codec::lemma_levelled(given, self@.types());
            crate::codec::lemma_wf_writable(page@);
        }
        if !page.conforms_to(&self.file.column_types) {
            return Err(StorageError::RowMismatch);
        }
        if self.file.page_start(page_id).is_none() {
            return Err(StorageError::TooLarge);
        }
        proof {
            lemma_page_put(self@, page_id, given);
            lemma_frame_index(self@.frames, page_id);
        }
        let buffer: [u8; 4096] = page.to_buff();
        self.file.write_page(&buffer, page_id);
        let ghost frames = self@.frames;
        let ghost index = self.table@;
        match self.table.get(&page_id) {
            Some(at) => {
                let at: usize = *at;
                let frame: &mut Frame = &mut self.pool[at];
                frame.page = page;
                assert(self@.frames =~= frames.update(
                    at as int,
                    FrameView { page: page@, ..frames[at as int] },
                ));
                proof {
                    lemma_index_same_ids(index, frames, self@.frames);
                }
            },
            None => {},
        }
        Ok(())
    }

    /// Stores `page` as a new page and hands back its id. The table picks the
    /// id and stores the page; then the page is brought into the pool, pinned
    /// and dirty, ready to be changed. Nothing changes if it is refused.
    #[verifier::rlimit(50)]
    pub fn create_page(&mut self, page: Page) -> (created: Result<u32, StorageError>)
        requires
            old(self).wf(),
        ensures
            match created {
                Ok(id) => old(self)@.create_error(page@) is None && id == old(self)@.file.next_id()
                    && final(self)@ == old(self)@.created(page@),
                Err(e) => old(self)@.create_error(page@) == Some(e) && final(self)@ == old(self)@,
            },
            final(self).wf(),
    {
        if !page.is_writable() {
            return Err(StorageError::BadPage);
        }
        if !page.conforms_to(&self.file.column_types) {
            return Err(StorageError::RowMismatch);
        }
        if !self.file.can_create_page() {
            return Err(StorageError::TooLarge);
        }
        proof {
            lemma_created(self@, page@);
        }
        let id: u32 = self.file.next_page_id();
        let buffer: [u8; 4096] = page.to_buff();
        self.drop_frame(id);
        let ghost dropped = self@;
        let ghost index = self.table@;
        match self.file.create_page(buffer) {
            Ok(_) => {},
            Err(_) => {},
        }
        assert(self@ == dropped.with_file(old(self)@.file.page_created(image(page@))));
        assert(self.wf());
        let ghost wrote = self@;
        proof {
            lemma_fetched(wrote, id, true);
        }
        match self.get_mut(id) {
            Ok(_) => {
                proof {
                    let mid = wrote.fetched(id, true);
                    let at = frame_index(mid.frames, id);
                    lemma_frame_index(mid.frames, id);
                    assert(mid.with_page(at, mid.frames[at].page).frames =~= mid.frames);
                }
            },
            Err(_) => {},
        }
        Ok(id)
    }

    /// Writes every dirty page to the file. The pages stay dirty, so the call
    /// may be repeated at will.
    #[verifier::rlimit(50)]
    pub fn flush_all(&mut self)
        requires
            old(self).wf(),
        ensures
            final(self)@ == old(self)@.flushed(old(self)@.frames.len() as int),
            final(self).wf(),
            final(self)@.same_nodes(old(self)@),
            final(self)@.durable(),
    {
        let ghost start = self@;
        let mut i: usize = 0;
        while i < self.pool.len()
            invariant
                i <= self.pool.len(),
                start == old(self)@,
                start.wf(),
                self.pool == old(self).pool,
                self.table == old(self).table,
                self@ == start.flushed(i as int),
            decreases self.pool.len() - i,
        {
            proof {
                lemma_flushed(start, i as int);
                lemma_flushed(start, i + 1);
                assert(start.flushed(i as int).frame_ok(i as int));
            }
            assert(start.frames[i as int] == self.pool[i as int]@);
            if self.pool[i].dirty {
                proof {
                    crate::codec::lemma_wf_writable(self.pool[i as int]@.page);
                }
                let buffer: [u8; 4096] = self.pool[i].page.to_buff();
                self.file.write_page(&buffer, self.pool[i].page_id);
            }
            i += 1;
        }
        proof {
            lemma_flushed(start, start.frames.len() as int);
        }
    }
}


/// Writing pages out leaves the table's schema and bookkeeping alone.
pub proof fn lemma_flushed_file(pool: PoolView, n: int)
    requires
        0 <= n <= pool.frames.len(),
    ensures
        pool.flushed(n).file.free_page_list == pool.file.free_page_list,
        pool.flushed(n).file.page_id_count == pool.file.page_id_count,
        pool.flushed(n).file.column_types == pool.file.column_types,
        pool.flushed(n).file.column_number == pool.file.column_number,
        pool.flushed(n).file.column_names == pool.file.column_names,
        pool.flushed(n).file.name == pool.file.name,
        pool.flushed(n).file.pk_column == pool.file.pk_column,
    decreases n,
{
    if n > 0 {
        lemma_flushed_file(pool, n - 1);
    }
}


/// After the dirty pages were written out, the file holds the bytes of each
/// dirty page that was written.
pub proof fn lemma_flushed_bytes(pool: PoolView, n: int)
    requires
        pool.wf(),
        0 <= n <= pool.frames.len(),
    ensures
        forall|i: int|
            0 <= i < n && (#[trigger] pool.frames[i]).dirty ==> {
                let file = pool.flushed(n).file;
                let f = pool.frames[i];
                file.page_at(f.page_id) == image(f.page) && file.page_offset(f.page_id) + 4096
                    <= file.file.len()
            },
    decreases n,
{
    if n > 0 {
        lemma_flushed_bytes(pool, n - 1);
        lemma_flushed(pool, n - 1);
        lemma_pool_distinct(pool);
        let before = pool.flushed(n - 1);
        let after = pool.flushed(n);
        let f = pool.frames[n - 1];
        crate::codec::lemma_image_len(f.page);
        if f.dirty {
            lemma_page_written(before.file, f.page_id, image(f.page));
            crate::engine::lemma_page_written_len(before.file, f.page_id, image(f.page));
        }
        assert forall|i: int| 0 <= i < n && (#[trigger] pool.frames[i]).dirty implies ({
            let file = after.file;
            let g = pool.frames[i];
            file.page_at(g.page_id) == image(g.page) && file.page_offset(g.page_id) + 4096
                <= file.file.len()
        }) by {
            let g = pool.frames[i];
            if i < n - 1 {
                if g.page_id == f.page_id {
                    lemma_distinct(pool.frames, i, n - 1);
                }
                assert(before.file.page_at(g.page_id) == image(g.page));
                assert(before.file.page_offset(g.page_id) == after.file.page_offset(g.page_id));
            }
        }
    }
}

/// Writing the dirty pages out once more changes nothing.
proof fn lemma_flushed_again(pool: PoolView, m: int)
    requires
        pool.wf(),
        0 <= m <= pool.frames.len(),
    ensures
        pool.flushed(pool.frames.len() as int).flushed(m) == pool.flushed(pool.frames.len() as int),
    decreases m,
{
    let n = pool.frames.len() as int;
    let once = pool.flushed(n);
    lemma_flushed(pool, n);
    if m > 0 {
        lemma_flushed_again(pool, m - 1);
        lemma_flushed_bytes(pool, n);
        let f = once.frames[m - 1];
        assert(f == pool.frames[m - 1]);
        crate::codec::lemma_image_len(f.page);
        if f.dirty {
            crate::engine::lemma_page_rewritten(once.file, f.page_id, image(f.page));
        }
    }
}

/// To write the dirty pages out twice is to write them out once.
pub proof fn law_flush_twice_is_flush_once(pool: PoolView)
    requires
        pool.wf(),
    ensures
        pool.flushed(pool.frames.len() as int).flushed(pool.frames.len() as int) == pool.flushed(
            pool.frames.len() as int,
        ),
{
    lemma_flushed_again(pool, pool.frames.len() as int);
}

} // verus!
