use crate::raster::Sample;
use vstd::prelude::*;

verus! {

/// A ring buffer of samples (`ringbuf::HeapRb`), opaque to the proofs: what
/// it holds is `ring_items`, its bound `ring_capacity`.
#[verifier::external_body]
pub struct SampleRing {
    rb: ringbuf::HeapRb<i32>,
}

/// The samples a ring buffer holds, oldest first.
pub uninterp spec fn ring_items(ring: SampleRing) -> Seq<i32>;

/// The number of samples a ring buffer was made to hold.
pub uninterp spec fn ring_capacity(ring: SampleRing) -> nat;

/// Relies on `HeapRb::new`: an empty ring buffer whose storage holds exactly
/// `capacity` items (it panics on a zero capacity).
#[verifier::external_body]
fn ring_new(capacity: usize) -> (ring: SampleRing)
    requires
        capacity > 0,
    ensures
        ring_items(ring) == Seq::<i32>::empty(),
        ring_capacity(ring) == capacity,
{
    SampleRing { rb: ringbuf::HeapRb::new(capacity) }
}

/// Relies on `Producer::try_push`: the item is appended unless the buffer is
/// full, and then it is handed back (`Err`) and the buffer is unchanged.
#[verifier::external_body]
fn ring_try_push(ring: &mut SampleRing, v: i32) -> (pushed: bool)
    ensures
        ring_capacity(*final(ring)) == ring_capacity(*old(ring)),
        pushed == (ring_items(*old(ring)).len() < ring_capacity(*old(ring))),
        pushed ==> ring_items(*final(ring)) == ring_items(*old(ring)).push(v),
        !pushed ==> ring_items(*final(ring)) == ring_items(*old(ring)),
{
    ringbuf::traits::Producer::try_push(&mut ring.rb, v).is_ok()
}

/// Relies on `Consumer::try_pop`: removes and returns the oldest item, or
/// `None` when the buffer is empty.
#[verifier::external_body]
fn ring_try_pop(ring: &mut SampleRing) -> (r: Option<i32>)
    ensures
        ring_capacity(*final(ring)) == ring_capacity(*old(ring)),
        ring_items(*old(ring)).len() == 0 ==> r is None && ring_items(*final(ring)) == ring_items(*old(ring)),
        ring_items(*old(ring)).len() > 0 ==> r == Some(ring_items(*old(ring))[0]) && ring_items(*final(ring))
            == ring_items(*old(ring)).drop_first(),
{
    ringbuf::traits::Consumer::try_pop(&mut ring.rb)
}

/// What a channel holding `items` with room for `capacity` samples holds after
/// `batch` is pushed: the batch is appended until the channel is full, and the
/// newest samples that find no room are dropped.
pub open spec fn after_push(items: Seq<i32>, capacity: nat, batch: Seq<i32>) -> Seq<i32> {
    let room = capacity - items.len();
    if batch.len() <= room {
        items + batch
    } else {
        items + batch.take(room)
    }
}

/// No loss under capacity: a batch that fits in the room left is kept whole
/// and in order after what was held. In particular a batch of at most the
/// capacity pushed into an empty channel is exactly what a drain returns.
pub proof fn lemma_push_within_capacity_keeps_batch(items: Seq<i32>, capacity: nat, batch: Seq<i32>)
    requires
        items.len() + batch.len() <= capacity,
    ensures
        after_push(items, capacity, batch) == items + batch,
        after_push(Seq::empty(), capacity, batch) == batch,
{
    assert(Seq::<i32>::empty() + batch =~= batch);
}

/// Overflow drops the newest samples: after any push the channel holds at
/// most its capacity; it keeps all it held and the oldest samples of the
/// batch (a prefix of the two in order), and a batch that does not fit leaves
/// it full.
pub proof fn lemma_push_drops_newest(items: Seq<i32>, capacity: nat, batch: Seq<i32>)
    requires
        items.len() <= capacity,
    ensures
        after_push(items, capacity, batch).len() <= capacity,
        after_push(items, capacity, batch).len() >= items.len(),
        after_push(items, capacity, batch) == (items + batch).take(
            after_push(items, capacity, batch).len() as int,
        ),
        items.len() + batch.len() > capacity ==> after_push(items, capacity, batch).len()
            == capacity,
{
    let r = after_push(items, capacity, batch);
    assert(r =~= (items + batch).take(r.len() as int));
}

/// The samples of `batches`, batch after batch in order.
pub open spec fn concat_batches(batches: Seq<Seq<i32>>) -> Seq<i32>
    decreases batches.len(),
{
    if batches.len() == 0 {
        Seq::empty()
    } else {
        concat_batches(batches.drop_last()) + batches.last()
    }
}

/// What a channel holding `items` holds after each of `batches` is pushed in
/// turn.
pub open spec fn after_pushes(items: Seq<i32>, capacity: nat, batches: Seq<Seq<i32>>) -> Seq<i32>
    decreases batches.len(),
{
    if batches.len() == 0 {
        items
    } else {
        after_push(after_pushes(items, capacity, batches.drop_last()), capacity, batches.last())
    }
}

/// Pushing two batches in turn keeps what pushing them as one batch keeps.
pub proof fn lemma_push_twice_is_push_of_both(items: Seq<i32>, capacity: nat, first: Seq<i32>, second: Seq<i32>)
    requires
        items.len() <= capacity,
    ensures
        after_push(after_push(items, capacity, first), capacity, second) == after_push(
            items,
            capacity,
            first + second,
        ),
{
    let room = capacity - items.len();
    let both = first + second;
    if first.len() <= room {
        assert(items + first + second =~= items + both);
        if both.len() > room {
            assert((items + first) + second.take(room - first.len()) =~= items + both.take(room));
        }
    } else {
        let kept = items + first.take(room);
        assert(first.take(room) =~= both.take(room));
        assert(kept + second.take(0) =~= kept);
        if second.len() == 0 {
            assert(kept + second =~= kept);
        }
    }
}

/// Pushing batches in turn keeps what pushing their concatenation as one
/// batch keeps: the channel's contents depend on the order of the samples,
/// not on how they were split into batches.
pub proof fn lemma_pushes_are_one_push(items: Seq<i32>, capacity: nat, batches: Seq<Seq<i32>>)
    requires
        items.len() <= capacity,
    ensures
        after_pushes(items, capacity, batches) == after_push(items, capacity, concat_batches(batches)),
    decreases batches.len(),
{
    if batches.len() == 0 {
        assert(items + Seq::<i32>::empty() =~= items);
    } else {
        let init = batches.drop_last();
        lemma_pushes_are_one_push(items, capacity, init);
        lemma_push_drops_newest(items, capacity, concat_batches(init));
        lemma_push_twice_is_push_of_both(items, capacity, concat_batches(init), batches.last());
    }
}

/// No loss under capacity, over any number of batches: samples that fit in
/// an empty channel come out of a drain exactly as pushed, in order.
pub proof fn lemma_batches_within_capacity_keep_all(capacity: nat, batches: Seq<Seq<i32>>)
    requires
        concat_batches(batches).len() <= capacity,
    ensures
        after_pushes(Seq::empty(), capacity, batches) == concat_batches(batches),
{
    lemma_pushes_are_one_push(Seq::empty(), capacity, batches);
    lemma_push_within_capacity_keeps_batch(Seq::empty(), capacity, concat_batches(batches));
}

/// Overflow drops the newest samples, over any number of batches: an empty
/// channel keeps the oldest `capacity` samples pushed, and all of them when
/// they fit.
pub proof fn lemma_batches_drop_newest(capacity: nat, batches: Seq<Seq<i32>>)
    ensures
        after_pushes(Seq::empty(), capacity, batches).len() <= capacity,
        concat_batches(batches).len() > capacity ==> after_pushes(Seq::empty(), capacity, batches)
            == concat_batches(batches).take(capacity as int),
        concat_batches(batches).len() <= capacity ==> after_pushes(Seq::empty(), capacity, batches)
            == concat_batches(batches),
{
    let all = concat_batches(batches);
    lemma_pushes_are_one_push(Seq::empty(), capacity, batches);
    lemma_push_drops_newest(Seq::empty(), capacity, all);
    assert(Seq::<i32>::empty() + all =~= all);
    assert(Seq::<i32>::empty() + all.take(capacity as int) =~= all.take(capacity as int));
}

/// A bounded first-in first-out queue of samples between one producer (the
/// capture callback) and one consumer (the render loop). It never grows, and
/// a push onto a full channel drops the sample.
pub struct SampleChannel {
    ring: SampleRing,
}

impl View for SampleChannel {
    type V = Seq<i32>;

    /// The samples held, oldest first.
    closed spec fn view(&self) -> Seq<i32> {
        ring_items(self.ring)
    }
}

impl SampleChannel {
    /// The number of samples the channel can hold, fixed at construction.
    pub closed spec fn capacity(&self) -> nat {
        ring_capacity(self.ring)
    }

    /// The channel never holds more than its capacity.
    pub open spec fn wf(&self) -> bool {
        self@.len() <= self.capacity()
    }

    /// An empty channel with room for `capacity` samples.
    pub fn new(capacity: usize) -> (r: Self)
        requires
            capacity > 0,
        ensures
            r.wf(),
            r@ == Seq::<i32>::empty(),
            r.capacity() == capacity,
    {
        SampleChannel { ring: ring_new(capacity) }
    }

    /// Enqueues the samples in order, dropping each that finds the channel
    /// full. Never blocks and never grows the channel.
    pub fn push_batch(&mut self, samples: &[Sample])
        requires
            old(self).wf(),
        ensures
            final(self).wf(),
            final(self).capacity() == old(self).capacity(),
            final(self)@ == after_push(old(self)@, old(self).capacity(), samples@),
    {
        let ghost start = self@;
        let ghost cap = self.capacity();
        let mut i: usize = 0;
        while i < samples.len()
            invariant
                i <= samples@.len(),
                self.capacity() == cap,
                start.len() <= cap,
                self@ == after_push(start, cap, samples@.take(i as int)),
            decreases samples@.len() - i,
        {
            let pushed = ring_try_push(&mut self.ring, samples[i]);
            proof {
                let t = samples@.take(i as int);
                let t1 = samples@.take(i + 1);
                assert(t1 =~= t.push(samples@[i as int]));
                if pushed {
                    assert(t.len() <= cap - start.len());
                    assert(self@ =~= after_push(start, cap, t1));
                } else {
                    assert(t1.take(cap - start.len()) =~= t.take(cap - start.len()));
                    assert(self@ =~= after_push(start, cap, t1));
                }
            }
            i = i + 1;
        }
        assert(samples@.take(samples@.len() as int) =~= samples@);
    }

    /// Removes and returns every sample held, oldest first; an empty batch
    /// when there is none. Never blocks.
    pub fn drain_all(&mut self) -> (r: Vec<Sample>)
        requires
            old(self).wf(),
        ensures
            final(self).wf(),
            final(self).capacity() == old(self).capacity(),
            r@ == old(self)@,
            final(self)@ == Seq::<i32>::empty(),
    {
        let ghost start = self@;
        let mut out: Vec<i32> = Vec::new();
        loop
            invariant
                self.capacity() == old(self).capacity(),
                out@ + self@ == start,
                start == old(self)@,
            ensures
                self.capacity() == old(self).capacity(),
                out@ == start,
                self@ == Seq::<i32>::empty(),
            decreases self@.len(),
        {
            let ghost before = self@;
            match ring_try_pop(&mut self.ring) {
                Some(v) => {
                    assert(out@.push(v) + self@ =~= out@ + before);
                    out.push(v);
                },
                None => {
                    assert(self@ =~= Seq::<i32>::empty());
                    assert(out@ + self@ =~= out@);
                    break;
                },
            }
        }
        out
    }
}

} // verus!
