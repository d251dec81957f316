//! A growable ring of byte arenas that stores storage frames of messages.
//! Writers append at the write arena; the reader drains the read arena and
//! follows the ring. Items come out in the order in which they went in.
use crate::serialiser::{
    frame, frame_value, is_frame, lemma_decode_frame_at, lemma_storage_frame,
    read_frame, MmqpSerialisable, SerialisationStrategy,
};
use core::marker::PhantomData;
use vstd::prelude::*;

verus! {

/// The sequences of `s` one after the other.
pub open spec fn concat<A>(s: Seq<Seq<A>>) -> Seq<A>
    decreases s.len(),
{
    if s.len() == 0 {
        Seq::empty()
    } else {
        s[0] + concat(s.drop_first())
    }
}

pub proof fn lemma_concat_push<A>(s: Seq<Seq<A>>, x: Seq<A>)
    ensures
        concat(s.push(x)) == concat(s) + x,
    decreases s.len(),
{
    if s.len() == 0 {
        assert(s.push(x).drop_first() =~= Seq::<Seq<A>>::empty());
        assert(concat(s.push(x).drop_first()) == Seq::<A>::empty());
        assert(concat(s.push(x)) =~= x);
    } else {
        lemma_concat_push(s.drop_first(), x);
        assert(s.push(x).drop_first() =~= s.drop_first().push(x));
        assert(concat(s.push(x)) =~= concat(s) + x);
    }
}

/// Where every part is empty the whole is empty.
pub proof fn lemma_concat_all_empty<A>(s: Seq<Seq<A>>)
    requires
        forall|j: int| 0 <= j < s.len() ==> (#[trigger] s[j]).len() == 0,
    ensures
        concat(s).len() == 0,
    decreases s.len(),
{
    if s.len() > 0 {
        lemma_concat_all_empty(s.drop_first());
    }
}

/// The whole is at least as long as any part.
pub proof fn lemma_concat_len_ge<A>(s: Seq<Seq<A>>, j: int)
    requires
        0 <= j < s.len(),
    ensures
        concat(s).len() >= s[j].len(),
    decreases s.len(),
{
    if j > 0 {
        lemma_concat_len_ge(s.drop_first(), j - 1);
    }
}

/// One arena: bytes appended at the end and read from the cursor on.
pub struct ReadBuffer<T: MmqpSerialisable> {
    pub buffer: Vec<u8>,
    pub cursor: usize,
    /// Appends that would take `buffer` past this length go elsewhere.
    pub capacity: usize,
    /// The unread storage frames, in order.
    pub frames: Ghost<Seq<Seq<u8>>>,
    pub marker: PhantomData<T>,
}

impl<T: MmqpSerialisable> View for ReadBuffer<T> {
    type V = Seq<Seq<u8>>;

    open spec fn view(&self) -> Seq<Seq<u8>> {
        self.frames@
    }
}

impl<T: MmqpSerialisable> ReadBuffer<T> {
    /// The unread bytes are the unread frames one after the other, each a whole frame.
    pub open spec fn wf(&self) -> bool {
        &&& self.cursor <= self.buffer@.len()
        &&& self.buffer@.subrange(self.cursor as int, self.buffer@.len() as int) == concat(
            self.frames@,
        )
        &&& forall|i: int| 0 <= i < self.frames@.len() ==> is_frame(#[trigger] self.frames@[i])
    }

    /// An arena is empty exactly when its cursor has reached the end.
    pub proof fn lemma_empty_iff_drained(&self)
        requires
            self.wf(),
        ensures
            (self@.len() == 0) == (self.cursor == self.buffer@.len()),
    {
        let unread = self.buffer@.subrange(self.cursor as int, self.buffer@.len() as int);
        assert(unread.len() == self.buffer@.len() - self.cursor);
        if self@.len() > 0 {
            assert(self@[0].subrange(0, self@[0].len() as int) =~= self@[0]);
            lemma_decode_frame_at(self@[0], 0, self@[0]);
            lemma_concat_len_ge(self@, 0);
        } else {
            assert(concat(self@).len() == 0);
        }
    }

    /// How the bytes and the cursor change when one read is made: an empty
    /// arena stays as it is; an arena read to its end is cleared and its
    /// cursor goes back to 0; otherwise the cursor moves past the first frame
    /// and the bytes stay.
    pub open spec fn read_step(&self, after: &Self) -> bool {
        &&& after.capacity == self.capacity
        &&& self.buffer@.len() == 0 ==> after.buffer@ == self.buffer@ && after.cursor
            == self.cursor
        &&& self.buffer@.len() > 0 && self.cursor == self.buffer@.len() ==> after.buffer@.len()
            == 0 && after.cursor == 0
        &&& self@.len() > 0 ==> after.buffer@ == self.buffer@ && after.cursor == self.cursor
            + self@[0].len()
    }

    /// An empty arena of `size` bytes.
    pub fn new(size: usize) -> (r: ReadBuffer<T>)
        ensures
            r.wf(),
            r@.len() == 0,
            r.buffer@.len() == 0,
            r.cursor == 0,
            r.capacity == size,
    {
        let r = ReadBuffer {
            buffer: Vec::with_capacity(size),
            cursor: 0,
            capacity: size,
            frames: Ghost(Seq::empty()),
            marker: PhantomData,
        };
        assert(r.buffer@.subrange(0, 0) =~= concat(Seq::<Seq<u8>>::empty()));
        r
    }

    /// Takes the next message. An arena read to its end is cleared for reuse.
    pub fn next(&mut self) -> (r: Option<T>)
        requires
            old(self).wf(),
        ensures
            final(self).wf(),
            old(self).read_step(&*final(self)),
            old(self)@.len() == 0 ==> r is None && final(self)@ == old(self)@,
            old(self)@.len() > 0 ==> final(self)@ == old(self)@.drop_first() && (match frame_value::<
                T,
            >(old(self)@[0]) {
                Some(m) => r matches Some(x) && x@ == m,
                None => r is None,
            }),
    {
        match self.take_frame() {
            Some(f) => value_of_frame(f),
            None => None,
        }
    }

    /// Takes what `T::raw` takes from the next frame, without decoding the
    /// message. An arena read to its end is cleared for reuse.
    pub fn next_raw(&mut self) -> (r: Option<Vec<u8>>)
        requires
            old(self).wf(),
        ensures
            final(self).wf(),
            old(self).read_step(&*final(self)),
            old(self)@.len() == 0 ==> r is None && final(self)@ == old(self)@,
            old(self)@.len() > 0 ==> final(self)@ == old(self)@.drop_first() && (r matches Some(x)
                && T::spec_raw(old(self)@[0], 0) matches Ok((y, _)) && x@ == y),
    {
        match self.take_frame() {
            Some(f) => raw_of_frame::<T>(f),
            None => None,
        }
    }

    /// Takes the next storage frame verbatim.
    fn take_frame(&mut self) -> (r: Option<Vec<u8>>)
        requires
            old(self).wf(),
        ensures
            final(self).wf(),
            old(self).read_step(&*final(self)),
            old(self)@.len() == 0 ==> r is None && final(self)@ == old(self)@,
            old(self)@.len() > 0 ==> final(self)@ == old(self)@.drop_first() && (r matches Some(x)
                && x@ == old(self)@[0] && is_frame(x@)),
    {
        proof {
            self.lemma_empty_iff_drained();
        }
        if self.buffer.len() == 0 {
            return None;
        }
        if self.cursor == self.buffer.len() {
            self.buffer.clear();
            self.cursor = 0;
            assert(self.buffer@.subrange(0, 0) =~= concat(self.frames@));
            return None;
        }
        let ghost old_frames = self.frames@;
        let ghost start = self.cursor as int;
        let ghost len = self.buffer@.len() as int;
        let ghost f0 = old_frames[0];
        let ghost rest = self.buffer@.subrange(start, len);
        proof {
            assert(concat(old_frames) == f0 + concat(old_frames.drop_first()));
            assert(rest.subrange(0, f0.len() as int) =~= f0);
            assert(self.buffer@.subrange(start, start + f0.len()) =~= rest.subrange(
                0,
                f0.len() as int,
            ));
            lemma_decode_frame_at(self.buffer@, start, f0);
        }
        let f = read_frame(self.buffer.as_slice(), &mut self.cursor);
        proof {
            self.frames = Ghost(old_frames.drop_first());
            assert(rest.subrange(f0.len() as int, rest.len() as int) =~= concat(self.frames@));
            assert(self.buffer@.subrange(self.cursor as int, len) =~= rest.subrange(
                f0.len() as int,
                rest.len() as int,
            ));
            assert forall|i: int| 0 <= i < self.frames@.len() implies is_frame(
                #[trigger] self.frames@[i],
            ) by {
                assert(self.frames@[i] == old_frames[i + 1]);
            }
        }
        match f {
            Ok(bytes) => Some(bytes),
            Err(_) => None,
        }
    }

    /// Appends the storage frame of a message. Arenas hold storage frames, so
    /// that frames standing back to back can each be found again.
    pub fn push_value(&mut self, value: T)
        requires
            old(self).wf(),
        ensures
            final(self).wf(),
            final(self).capacity == old(self).capacity,
            final(self).cursor == old(self).cursor,
            final(self).buffer@ == old(self).buffer@ + frame(
                T::spec_envelope(value@),
                SerialisationStrategy::Storage,
            ),
            final(self)@ == old(self)@.push(
                frame(T::spec_envelope(value@), SerialisationStrategy::Storage),
            ),
            frame_value::<T>(frame(T::spec_envelope(value@), SerialisationStrategy::Storage))
                == Some(value@),
    {
        let bytes = value.serialise(SerialisationStrategy::Storage).into_vec();
        let _ = bytes.len();
        proof {
            lemma_storage_frame::<T>(value@);
        }
        self.append_frame(bytes);
    }

    /// Appends a storage frame verbatim.
    pub fn push_raw(&mut self, value: Box<[u8]>)
        requires
            old(self).wf(),
            is_frame(value@),
        ensures
            final(self).wf(),
            final(self).capacity == old(self).capacity,
            final(self).cursor == old(self).cursor,
            final(self).buffer@ == old(self).buffer@ + value@,
            final(self)@ == old(self)@.push(value@),
    {
        self.append_frame(value.into_vec());
    }

    fn append_frame(&mut self, value: Vec<u8>)
        requires
            old(self).wf(),
            is_frame(value@),
        ensures
            final(self).wf(),
            final(self).capacity == old(self).capacity,
            final(self).cursor == old(self).cursor,
            final(self).buffer@ == old(self).buffer@ + value@,
            final(self)@ == old(self)@.push(value@),
    {
        let ghost before = self.buffer@;
        let ghost old_frames = self.frames@;
        let ghost f = value@;
        let mut v = value;
        self.buffer.append(&mut v);
        proof {
            self.frames = Ghost(old_frames.push(f));
            lemma_concat_push(old_frames, f);
            assert(self.buffer@.subrange(self.cursor as int, self.buffer@.len() as int)
                =~= before.subrange(self.cursor as int, before.len() as int) + f);
            assert forall|i: int| 0 <= i < self.frames@.len() implies is_frame(
                #[trigger] self.frames@[i],
            ) by {
                if i < old_frames.len() {
                    assert(self.frames@[i] == old_frames[i]);
                }
            }
        }
    }

    /// Whether `size` more bytes fit within the capacity.
    pub fn has_capacity(&self, size: usize) -> (r: bool)
        ensures
            r == (self.buffer@.len() + size <= self.capacity),
    {
        size <= self.capacity && self.buffer.len() <= self.capacity - size
    }
}


/// The whole is the parts before the last one, then the last one.
pub proof fn lemma_concat_drop_last<A>(s: Seq<Seq<A>>)
    requires
        s.len() > 0,
    ensures
        concat(s) == concat(s.drop_last()) + s.last(),
{
    assert(s.drop_last().push(s.last()) =~= s);
    lemma_concat_push(s.drop_last(), s.last());
}

/// The storage frames of `items`, in order.
pub open spec fn frames_of<T: MmqpSerialisable>(items: Seq<T::V>) -> Seq<Seq<u8>> {
    Seq::new(
        items.len(),
        |i: int| frame(T::spec_envelope(items[i]), SerialisationStrategy::Storage),
    )
}

/// Pool order: messages pushed one after another onto an empty pool leave it
/// holding their frames in that order, and each frame that a read takes gives
/// back its message, so reads hand the messages out in order, each once.
pub proof fn law_pool_fifo<T: MmqpSerialisable>(items: Seq<T::V>)
    requires
        forall|i: int|
            0 <= i < items.len() ==> T::spec_valid(#[trigger] items[i]) && frame(
                T::spec_envelope(items[i]),
                SerialisationStrategy::Storage,
            ).len() <= u64::MAX,
    ensures
        forall|k: int|
            0 <= k < items.len() ==> #[trigger] frames_of::<T>(items.subrange(0, k + 1)) == frames_of::<
                T,
            >(items.subrange(0, k)).push(
                frame(T::spec_envelope(items[k]), SerialisationStrategy::Storage),
            ),
        forall|k: int|
            0 <= k < items.len() ==> frame_value::<T>(#[trigger] frames_of::<T>(items)[k]) == Some(
                items[k],
            ),
        frames_of::<T>(items).subrange(items.len() as int, items.len() as int) == Seq::<
            Seq<u8>,
        >::empty(),
{
    assert forall|k: int| 0 <= k < items.len() implies #[trigger] frames_of::<T>(
        items.subrange(0, k + 1),
    ) == frames_of::<T>(items.subrange(0, k)).push(
        frame(T::spec_envelope(items[k]), SerialisationStrategy::Storage),
    ) by {
        assert(frames_of::<T>(items.subrange(0, k + 1)) =~= frames_of::<T>(
            items.subrange(0, k),
        ).push(frame(T::spec_envelope(items[k]), SerialisationStrategy::Storage)));
    }
    assert forall|k: int| 0 <= k < items.len() implies frame_value::<T>(
        #[trigger] frames_of::<T>(items)[k],
    ) == Some(items[k]) by {
        lemma_storage_frame::<T>(items[k]);
    }
    assert(frames_of::<T>(items).subrange(items.len() as int, items.len() as int) =~= Seq::<
        Seq<u8>,
    >::empty());
}

/// Takes the message that a storage frame holds, if it holds one.
fn value_of_frame<T: MmqpSerialisable>(f: Vec<u8>) -> (r: Option<T>)
    ensures
        match frame_value::<T>(f@) {
            Some(m) => r matches Some(x) && x@ == m,
            None => r is None,
        },
{
    let mut c: usize = 0;
    match T::deserialise(f.as_slice(), &mut c, SerialisationStrategy::Storage) {
        Ok(x) => {
            if c == f.len() {
                Some(x)
            } else {
                None
            }
        },
        Err(_) => None,
    }
}

/// Takes what `T::raw` takes from a whole storage frame.
fn raw_of_frame<T: MmqpSerialisable>(f: Vec<u8>) -> (r: Option<Vec<u8>>)
    requires
        is_frame(f@),
    ensures
        r matches Some(x) && T::spec_raw(f@, 0) matches Ok((y, _)) && x@ == y,
{
    proof {
        T::lemma_raw_of_frame(f@);
    }
    let mut c: usize = 0;
    match T::raw(f.as_slice(), &mut c) {
        Ok(x) => Some(x),
        Err(_) => None,
    }
}

/// Arena `i` lies on the way from the read arena `r` to the write arena `w`.
pub open spec fn is_active(r: int, w: int, i: int) -> bool {
    if r <= w {
        r <= i <= w
    } else {
        i >= r || i <= w
    }
}

/// The elements of `a` from index `r` to index `w`, going round the end.
pub open spec fn ring_segment<A>(a: Seq<A>, r: int, w: int) -> Seq<A> {
    if r <= w {
        a.subrange(r, w + 1)
    } else {
        a.subrange(r, a.len() as int) + a.subrange(0, w + 1)
    }
}

/// Steps from `r` to `w` going round a ring of `n`.
pub open spec fn ring_distance(r: int, w: int, n: int) -> int {
    if r <= w {
        w - r
    } else {
        w + n - r
    }
}

/// A ring of arenas that hands out messages in the order they were pushed.
pub struct RotatingReadBuffers<T: MmqpSerialisable> {
    pub buffers: Vec<ReadBuffer<T>>,
    /// The capacity of every arena.
    pub buffer_size: usize,
    /// The arena that reads come from.
    pub current_read_buffer: usize,
    /// The arena that appends go to.
    pub current_write_buffer: usize,
    pub num_buffers: usize,
}

impl<T: MmqpSerialisable> View for RotatingReadBuffers<T> {
    /// The stored frames, oldest first.
    type V = Seq<Seq<u8>>;

    open spec fn view(&self) -> Seq<Seq<u8>> {
        concat(self.active_frames())
    }
}

impl<T: MmqpSerialisable> RotatingReadBuffers<T> {
    pub open spec fn arena_frames(&self) -> Seq<Seq<Seq<u8>>> {
        Seq::new(self.buffers@.len(), |i: int| self.buffers@[i]@)
    }

    /// The frames of each arena from the read arena to the write arena.
    pub open spec fn active_frames(&self) -> Seq<Seq<Seq<u8>>> {
        ring_segment(
            self.arena_frames(),
            self.current_read_buffer as int,
            self.current_write_buffer as int,
        )
    }

    /// Every arena is well formed and has the common capacity; arenas off the
    /// way from the read arena to the write arena are empty.
    pub open spec fn wf(&self) -> bool {
        &&& self.num_buffers == self.buffers@.len()
        &&& 0 < self.num_buffers
        &&& self.current_read_buffer < self.num_buffers
        &&& self.current_write_buffer < self.num_buffers
        &&& forall|i: int|
            0 <= i < self.buffers@.len() ==> (#[trigger] self.buffers@[i]).wf()
                && self.buffers@[i].capacity == self.buffer_size
        &&& forall|i: int|
            0 <= i < self.buffers@.len() && !is_active(
                self.current_read_buffer as int,
                self.current_write_buffer as int,
                i,
            ) ==> (#[trigger] self.buffers@[i])@.len() == 0
    }

    /// A ring of `max(num_buffers, 1)` empty arenas of `buffer_size` bytes each.
    pub fn new(num_buffers: usize, buffer_size: usize) -> (r: RotatingReadBuffers<T>)
        ensures
            r.wf(),
            r@ == Seq::<Seq<u8>>::empty(),
            r.num_buffers == if num_buffers == 0 {
                1
            } else {
                num_buffers
            },
            r.buffer_size == buffer_size,
            r.current_read_buffer == 0,
            r.current_write_buffer == 0,
            forall|i: int|
                0 <= i < r.buffers@.len() ==> (#[trigger] r.buffers@[i]).buffer@.len() == 0
                    && r.buffers@[i].cursor == 0 && r.buffers@[i].capacity == buffer_size,
    {
        let n: usize = if num_buffers == 0 {
            1
        } else {
            num_buffers
        };
        let mut buffers: Vec<ReadBuffer<T>> = Vec::new();
        let mut i: usize = 0;
        while i < n
            invariant
                i <= n,
                buffers@.len() == i,
                forall|j: int|
                    0 <= j < i ==> (#[trigger] buffers@[j]).wf() && buffers@[j].capacity
                        == buffer_size && buffers@[j]@.len() == 0 && buffers@[j].buffer@.len() == 0
                        && buffers@[j].cursor == 0,
            decreases n - i,
        {
            buffers.push(ReadBuffer::new(buffer_size));
            i = i + 1;
        }
        let r = RotatingReadBuffers {
            buffers,
            current_read_buffer: 0,
            current_write_buffer: 0,
            num_buffers: n,
            buffer_size,
        };
        proof {
            let s = r.active_frames();
            assert forall|j: int| 0 <= j < s.len() implies (#[trigger] s[j]).len() == 0 by {
                assert(s[j] == r.buffers@[j]@);
            }
            lemma_concat_all_empty(s);
            assert(r@ =~= Seq::<Seq<u8>>::empty());
        }
        r
    }

    /// The arena after the read arena, going round the ring.
    pub fn next_read_buffer(&self) -> (r: usize)
        requires
            self.wf(),
        ensures
            r == if self.current_read_buffer + 1 == self.num_buffers {
                0
            } else {
                self.current_read_buffer + 1
            },
    {
        if self.current_read_buffer + 1 == self.num_buffers {
            0
        } else {
            self.current_read_buffer + 1
        }
    }

    /// The arena after the write arena, going round the ring.
    pub fn next_write_buffer(&self) -> (r: usize)
        requires
            self.wf(),
        ensures
            r == if self.current_write_buffer + 1 == self.num_buffers {
                0
            } else {
                self.current_write_buffer + 1
            },
    {
        if self.current_write_buffer + 1 == self.num_buffers {
            0
        } else {
            self.current_write_buffer + 1
        }
    }

    /// Moves the write arena one step round the ring, onto an arena that
    /// holds nothing. The caller moves on this way only where the next arena
    /// is not the read arena, whose unread frames must not be written after;
    /// otherwise it puts a new arena in with `add_and_go_next`, as `push_raw` does.
    pub fn go_next(&mut self)
        requires
            old(self).wf(),
            old(self).next_write_spec() != old(self).current_read_buffer,
        ensures
            final(self).wf(),
            final(self)@ == old(self)@,
            final(self).current_write_buffer == old(self).next_write_spec(),
            final(self).current_read_buffer == old(self).current_read_buffer,
            final(self).num_buffers == old(self).num_buffers,
            final(self).buffer_size == old(self).buffer_size,
            final(self).buffers@ == old(self).buffers@,
    {
        let ghost a = self.arena_frames();
        let ghost act = self.active_frames();
        let ghost r = self.current_read_buffer as int;
        let ghost w = self.current_write_buffer as int;
        let ghost n = self.num_buffers as int;
        self.current_write_buffer = self.next_write_buffer();
        proof {
            let w2 = self.current_write_buffer as int;
            assert(a =~= self.arena_frames());
            assert(!is_active(r, w, w2));
            assert(a[w2].len() == 0);
            if r <= w {
                if w + 1 < n {
                    assert(self.active_frames() =~= act.push(a[w2]));
                } else {
                    assert(self.active_frames() =~= act.push(a[w2]));
                }
            } else {
                assert(self.active_frames() =~= act.push(a[w2]));
            }
            lemma_concat_push(act, a[w2]);
            assert(self@ =~= old(self)@);
        }
    }

    /// Puts a new empty arena right after the write arena and makes it the
    /// write arena. The read arena keeps its place in the ring.
    pub fn add_and_go_next(&mut self)
        requires
            old(self).wf(),
        ensures
            final(self).wf(),
            final(self)@ == old(self)@,
            final(self).num_buffers == old(self).num_buffers + 1,
            final(self).current_write_buffer == old(self).current_write_buffer + 1,
            final(self).buffer_size == old(self).buffer_size,
            final(self).buffers@[final(self).current_write_buffer as int]@.len() == 0,
            final(self).buffers@[final(self).current_write_buffer as int].buffer@.len() == 0,
            final(self).buffers@[final(self).current_write_buffer as int].cursor == 0,
            final(self).buffers@[final(self).current_write_buffer as int].capacity
                == old(self).buffer_size,
            final(self).buffers@ == old(self).buffers@.insert(
                old(self).current_write_buffer + 1,
                final(self).buffers@[final(self).current_write_buffer as int],
            ),
            final(self).current_read_buffer == if old(self).current_read_buffer > old(
                self,
            ).current_write_buffer {
                old(self).current_read_buffer + 1
            } else {
                old(self).current_read_buffer as int
            },
            final(self).current_write_buffer != final(self).current_read_buffer,
            final(self).buffers@[final(self).current_read_buffer as int] == old(
                self,
            ).buffers@[old(self).current_read_buffer as int],
    {
        let ghost a = self.arena_frames();
        let ghost act = self.active_frames();
        let ghost old_buffers = self.buffers@;
        let ghost r = self.current_read_buffer as int;
        let ghost w = self.current_write_buffer as int;
        let ghost n = self.num_buffers as int;
        let w1 = self.current_write_buffer + 1;
        let arena = ReadBuffer::new(self.buffer_size);
        let ghost e = arena;
        self.buffers.insert(w1, arena);
        self.num_buffers = self.buffers.len();
        if self.current_read_buffer > self.current_write_buffer {
            self.current_read_buffer = self.current_read_buffer + 1;
        }
        self.current_write_buffer = w1;
        proof {
            let b = self.buffers@;
            assert(b == old_buffers.insert(w + 1, e));
            assert forall|i: int| 0 <= i < b.len() implies (#[trigger] b[i]).wf() && b[i].capacity
                == self.buffer_size by {
                if i < w + 1 {
                    assert(b[i] == old_buffers[i]);
                } else if i > w + 1 {
                    assert(b[i] == old_buffers[i - 1]);
                }
            }
            let r2 = self.current_read_buffer as int;
            assert forall|i: int|
                0 <= i < b.len() && !is_active(r2, w + 1, i) implies (#[trigger] b[i])@.len()
                == 0 by {
                if i < w + 1 {
                    assert(b[i] == old_buffers[i]);
                    assert(!is_active(r, w, i));
                } else if i > w + 1 {
                    assert(b[i] == old_buffers[i - 1]);
                    assert(!is_active(r, w, i - 1));
                }
            }
            let a2 = self.arena_frames();
            if r <= w {
                assert(a2.subrange(r, w + 2) =~= a.subrange(r, w + 1).push(e@));
            } else {
                assert(a2.subrange(r + 1, n + 1) =~= a.subrange(r, n));
                assert(a2.subrange(0, w + 2) =~= a.subrange(0, w + 1).push(e@));
                assert(self.active_frames() =~= act.push(e@));
            }
            assert(self.active_frames() =~= act.push(e@));
            lemma_concat_push(act, e@);
            assert(self@ =~= old(self)@);
        }
    }

    /// Appends a storage frame verbatim. When the write arena lacks room the
    /// write arena moves on, and a new arena is put in first where moving on
    /// would reach the read arena.
    pub fn push_raw(&mut self, value: Box<[u8]>)
        requires
            old(self).wf(),
            is_frame(value@),
        ensures
            final(self).wf(),
            final(self)@ == old(self)@.push(value@),
            final(self).buffer_size == old(self).buffer_size,
            old(self).ring_push(&*final(self), value@),
    {
        let size = value.len();
        let ghost before = *self;
        if !self.buffers[self.current_write_buffer].has_capacity(size) {
            if self.next_write_buffer() == self.current_read_buffer {
                self.add_and_go_next();
            } else {
                self.go_next();
            }
        }
        let ghost mid = *self;
        self.append_to_writer(value);
        proof {
            let w = before.current_write_buffer as int;
            let r = before.current_read_buffer as int;
            if before.buffers@[w].buffer@.len() + value@.len() <= before.buffers@[w].capacity {
            } else if before.next_write_spec() != r {
            } else {
                assert(self.buffers@ =~= before.buffers@.insert(w + 1, self.buffers@[w + 1]));
                assert(self.buffers@[w + 1].buffer@ =~= value@);
            }
        }
    }

    /// Appends the storage frame of a message, as `push_raw` does. The ring
    /// holds storage frames, not bare envelopes: their length prefix is what
    /// lets a read find where each one ends.
    pub fn push_value(&mut self, value: T)
        requires
            old(self).wf(),
        ensures
            final(self).wf(),
            final(self)@ == old(self)@.push(
                frame(T::spec_envelope(value@), SerialisationStrategy::Storage),
            ),
            frame_value::<T>(frame(T::spec_envelope(value@), SerialisationStrategy::Storage))
                == Some(value@),
            final(self).buffer_size == old(self).buffer_size,
            old(self).ring_push(
                &*final(self),
                frame(T::spec_envelope(value@), SerialisationStrategy::Storage),
            ),
    {
        let bytes = value.serialise(SerialisationStrategy::Storage);
        let _ = bytes.len();
        proof {
            lemma_storage_frame::<T>(value@);
        }
        self.push_raw(bytes);
    }

    fn append_to_writer(&mut self, value: Box<[u8]>)
        requires
            old(self).wf(),
            is_frame(value@),
        ensures
            final(self).wf(),
            final(self)@ == old(self)@.push(value@),
            final(self).buffer_size == old(self).buffer_size,
            old(self).appended_at(&*final(self), old(self).current_write_buffer as int, value@),
    {
        let ghost a = self.arena_frames();
        let ghost act = self.active_frames();
        let ghost old_buffers = self.buffers@;
        let ghost r = self.current_read_buffer as int;
        let ghost w = self.current_write_buffer as int;
        let ghost n = self.num_buffers as int;
        let ghost f = value@;
        let wi = self.current_write_buffer;
        self.buffers[wi].push_raw(value);
        proof {
            let b = self.buffers@;
            assert forall|i: int| 0 <= i < b.len() && i != w implies b[i] == old_buffers[i] by {}
            assert(b[w]@ == a[w].push(f));
            let a2 = self.arena_frames();
            assert(a2 =~= a.update(w, a[w].push(f)));
            assert(act.len() > 0);
            assert(act.last() == a[w]);
            assert(self.active_frames() =~= act.drop_last().push(a[w].push(f)));
            lemma_concat_drop_last(act);
            lemma_concat_push(act.drop_last(), a[w].push(f));
            assert(self@ =~= old(self)@.push(f));
        }
    }

    /// Whether a frame is waiting to be read.
    pub fn has_next(&self) -> (r: bool)
        requires
            self.wf(),
        ensures
            r == (self@.len() > 0),
    {
        let n = self.buffers.len();
        let mut i: usize = 0;
        while i < n
            invariant
                self.wf(),
                n == self.buffers@.len(),
                i <= n,
                forall|j: int| 0 <= j < i ==> (#[trigger] self.buffers@[j])@.len() == 0,
            decreases n - i,
        {
            proof {
                self.buffers@[i as int].lemma_empty_iff_drained();
            }
            if self.buffers[i].cursor < self.buffers[i].buffer.len() {
                proof {
                    self.lemma_arena_in_view(i as int);
                }
                return true;
            }
            i = i + 1;
        }
        proof {
            let s = self.active_frames();
            assert forall|j: int| 0 <= j < s.len() implies (#[trigger] s[j]).len() == 0 by {
                self.lemma_active_index(j);
            }
            lemma_concat_all_empty(s);
        }
        false
    }

    /// Position `j` of the active frames is the frames of an arena.
    proof fn lemma_active_index(&self, j: int)
        requires
            self.wf(),
            0 <= j < self.active_frames().len(),
        ensures
            ({
                let r = self.current_read_buffer as int;
                let n = self.num_buffers as int;
                let i = if r + j < n {
                    r + j
                } else {
                    r + j - n
                };
                &&& 0 <= i < n
                &&& self.active_frames()[j] == self.buffers@[i]@
            }),
    {
    }

    /// The frames of an arena that holds some count towards the stored frames.
    proof fn lemma_arena_in_view(&self, i: int)
        requires
            self.wf(),
            0 <= i < self.num_buffers,
            self.buffers@[i]@.len() > 0,
        ensures
            self@.len() > 0,
    {
        let r = self.current_read_buffer as int;
        let w = self.current_write_buffer as int;
        let n = self.num_buffers as int;
        assert(is_active(r, w, i));
        let j = if i >= r {
            i - r
        } else {
            n - r + i
        };
        assert(self.active_frames()[j] == self.buffers@[i]@);
        lemma_concat_len_ge(self.active_frames(), j);
    }

    /// Takes what `T::raw` takes from the oldest frame, without decoding the
    /// message. Drained arenas on the way are cleared and the read arena moves
    /// on to the next that holds frames.
    pub fn next_raw(&mut self) -> (r: Option<Vec<u8>>)
        requires
            old(self).wf(),
        ensures
            final(self).wf(),
            final(self).buffer_size == old(self).buffer_size,
            old(self)@.len() == 0 ==> r is None && final(self)@ == old(self)@,
            old(self)@.len() > 0 ==> final(self)@ == old(self)@.drop_first() && (r matches Some(x)
                && T::spec_raw(old(self)@[0], 0) matches Ok((y, _)) && x@ == y),
    {
        match self.take_frame() {
            Some(f) => raw_of_frame::<T>(f),
            None => None,
        }
    }

    /// Takes the oldest frame verbatim.
    fn take_frame(&mut self) -> (r: Option<Vec<u8>>)
        requires
            old(self).wf(),
        ensures
            final(self).wf(),
            final(self).buffer_size == old(self).buffer_size,
            old(self)@.len() == 0 ==> r is None && final(self)@ == old(self)@,
            old(self)@.len() > 0 ==> final(self)@ == old(self)@.drop_first() && (r matches Some(x)
                && x@ == old(self)@[0] && is_frame(x@)),
    {
        loop
            invariant
                self.wf(),
                self@ == old(self)@,
                self.buffer_size == old(self).buffer_size,
            decreases ring_distance(
                self.current_read_buffer as int,
                self.current_write_buffer as int,
                self.num_buffers as int,
            ),
        {
            let ri = self.current_read_buffer;
            let ghost a = self.arena_frames();
            let ghost act = self.active_frames();
            let ghost old_buffers = self.buffers@;
            let ghost r = ri as int;
            let ghost w = self.current_write_buffer as int;
            let ghost n = self.num_buffers as int;
            proof {
                self.buffers@[r].lemma_empty_iff_drained();
                assert(act[0] == a[r]);
                assert(concat(act) == a[r] + concat(act.drop_first()));
            }
            if self.buffers[ri].cursor < self.buffers[ri].buffer.len() {
                let f = self.buffers[ri].take_frame();
                proof {
                    let b = self.buffers@;
                    assert forall|i: int| 0 <= i < b.len() && i != r implies b[i]
                        == old_buffers[i] by {}
                    assert(self.arena_frames() =~= a.update(r, a[r].drop_first()));
                    assert(self.active_frames() =~= act.update(0, a[r].drop_first()));
                    assert(self.active_frames().drop_first() =~= act.drop_first());
                    assert(self@ =~= old(self)@.drop_first());
                }
                return f;
            }
            let _ = self.buffers[ri].take_frame();
            proof {
                let b = self.buffers@;
                assert forall|i: int| 0 <= i < b.len() && i != r implies b[i] == old_buffers[i] by {}
                assert(self.arena_frames() =~= a);
                assert(self.active_frames() =~= act);
            }
            if ri == self.current_write_buffer {
                proof {
                    assert(act.drop_first() =~= Seq::<Seq<Seq<u8>>>::empty());
                    assert(self@ =~= Seq::<Seq<u8>>::empty());
                }
                return None;
            }
            self.current_read_buffer = self.next_read_buffer();
            proof {
                let r2 = self.current_read_buffer as int;
                if r < w {
                    assert(self.active_frames() =~= act.drop_first());
                } else if r + 1 < n {
                    assert(self.active_frames() =~= act.drop_first());
                } else {
                    assert(self.active_frames() =~= act.drop_first());
                }
                assert(self@ == old(self)@);
            }
        }
    }

    /// Takes the oldest message, as `next_raw` takes its frame.
    pub fn next(&mut self) -> (r: Option<T>)
        requires
            old(self).wf(),
        ensures
            final(self).wf(),
            final(self).buffer_size == old(self).buffer_size,
            old(self)@.len() == 0 ==> r is None && final(self)@ == old(self)@,
            old(self)@.len() > 0 ==> final(self)@ == old(self)@.drop_first() && (match frame_value::<
                T,
            >(old(self)@[0]) {
                Some(m) => r matches Some(x) && x@ == m,
                None => r is None,
            }),
    {
        match self.take_frame() {
            Some(f) => value_of_frame(f),
            None => None,
        }
    }

    /// `after` is this ring with `bytes` appended to arena `i`; the indices
    /// and every other arena stay.
    pub open spec fn appended_at(&self, after: &Self, i: int, bytes: Seq<u8>) -> bool {
        &&& after.num_buffers == self.num_buffers
        &&& after.current_read_buffer == self.current_read_buffer
        &&& after.current_write_buffer == i
        &&& after.buffers@ == self.buffers@.update(i, after.buffers@[i])
        &&& after.buffers@[i].buffer@ == self.buffers@[i].buffer@ + bytes
        &&& after.buffers@[i].cursor == self.buffers@[i].cursor
        &&& after.buffers@[i].capacity == self.buffers@[i].capacity
    }

    /// Where a push of `bytes` lands: in the write arena where they fit;
    /// otherwise in the next arena round the ring, unless that is the read
    /// arena, in which case in a new arena put in right after the write arena.
    /// The read arena keeps its bytes and cursor unless the bytes fit in it as
    /// the write arena.
    pub open spec fn ring_push(&self, after: &Self, bytes: Seq<u8>) -> bool {
        let w = self.current_write_buffer as int;
        let r = self.current_read_buffer as int;
        if self.buffers@[w].buffer@.len() + bytes.len() <= self.buffers@[w].capacity {
            self.appended_at(after, w, bytes)
        } else if self.next_write_spec() != r {
            self.appended_at(after, self.next_write_spec() as int, bytes)
        } else {
            &&& after.num_buffers == self.num_buffers + 1
            &&& after.current_write_buffer == w + 1
            &&& after.current_read_buffer == if r > w {
                r + 1
            } else {
                r
            }
            &&& after.buffers@ == self.buffers@.insert(w + 1, after.buffers@[w + 1])
            &&& after.buffers@[w + 1].buffer@ == bytes
            &&& after.buffers@[w + 1].cursor == 0
            &&& after.buffers@[w + 1].capacity == self.buffer_size
        }
    }

    pub open spec fn next_write_spec(&self) -> usize {
        if self.current_write_buffer + 1 == self.num_buffers {
            0
        } else {
            (self.current_write_buffer + 1) as usize
        }
    }

    /// The arena that appends go to.
    pub fn get_writer(&self) -> (r: &ReadBuffer<T>)
        requires
            self.wf(),
        ensures
            *r == self.buffers@[self.current_write_buffer as int],
    {
        &self.buffers[self.current_write_buffer]
    }
}

} // verus!
