//! From the audio callback to the capture loop: a ring buffer of samples.
//!
//! A sample is carried by its bit pattern. The two ends of a ring may belong to
//! different threads.

use vstd::prelude::*;
use ringbuf::traits::Consumer;
use ringbuf::traits::Producer;
use ringbuf::traits::Split;

verus! {

/// The end of a ring at which samples go in: the producer half of a
/// `ringbuf::HeapRb`.
#[verifier::external_body]
pub struct SampleProducer {
    inner: ringbuf::HeapProd<u32>,
}

/// The end of a ring at which samples come out: the consumer half of a
/// `ringbuf::HeapRb`.
#[verifier::external_body]
pub struct SampleConsumer {
    inner: ringbuf::HeapCons<u32>,
}

/// Which ring this end belongs to.
pub uninterp spec fn ring_in(p: SampleProducer) -> int;

/// Which ring this end belongs to.
pub uninterp spec fn ring_out(c: SampleConsumer) -> int;

/// Every sample that goes into the ring of this end in its whole life, in order.
pub uninterp spec fn carried_in(p: SampleProducer) -> Seq<u32>;

/// Every sample that goes into the ring of this end in its whole life, in order.
pub uninterp spec fn carried_out(c: SampleConsumer) -> Seq<u32>;

/// Every sample that ever went in at this end, in order.
pub uninterp spec fn pushed(p: SampleProducer) -> Seq<u32>;

/// The number of samples that the ring of this end was made to hold.
pub uninterp spec fn capacity(p: SampleProducer) -> nat;

/// Every sample that ever came out at this end, in order.
pub uninterp spec fn popped(c: SampleConsumer) -> Seq<u32>;

/// Whether the last attempt to take a sample out at this end found none.
pub uninterp spec fn found_empty(c: SampleConsumer) -> bool;

/// `ringbuf::HeapRb::new` and `split` make an empty ring that holds `size`
/// samples, and hand out its two ends: both are of the one ring, so that one
/// stream of samples passes through both. Making a ring that holds nothing
/// panics, and so does making one whose bytes cannot be counted. Where memory runs
/// out there is no result.
#[verifier::external_body]
fn sample_ring(size: usize) -> (ends: (SampleProducer, SampleConsumer))
    requires
        0 < size <= usize::MAX / 8,
    ensures
        ring_in(ends.0) == ring_out(ends.1),
        carried_in(ends.0) == carried_out(ends.1),
        pushed(ends.0) == Seq::<u32>::empty(),
        capacity(ends.0) == size,
        popped(ends.1) == Seq::<u32>::empty(),
{
    let (producer, consumer) = ringbuf::HeapRb::<u32>::new(size).split();
    (SampleProducer { inner: producer }, SampleConsumer { inner: consumer })
}

/// `Producer::push_slice` puts in as many of the samples, from the first on, as
/// there is room for, behind those that went in before, and says how many. There
/// is room for all of them unless the ring is full afterwards, so that as many
/// samples as it holds have gone in by then. How much room there is beyond that depends on what has come out at
/// the other end, which another thread decides: of that nothing is claimed.
#[verifier::external_body]
fn push_slice(producer: &mut SampleProducer, data: &[u32]) -> (n: usize)
    ensures
        n <= data@.len(),
        n <= capacity(*old(producer)),
        n < data@.len() ==> pushed(*old(producer)).len() + n >= capacity(*old(producer)),
        pushed(*final(producer)) == pushed(*old(producer)) + data@.take(n as int),
        pushed(*final(producer)).is_prefix_of(carried_in(*final(producer))),
        capacity(*final(producer)) == capacity(*old(producer)),
        ring_in(*final(producer)) == ring_in(*old(producer)),
        carried_in(*final(producer)) == carried_in(*old(producer)),
{
    producer.inner.push_slice(data)
}

/// `Consumer::try_pop` takes out the eldest sample, or finds none and takes out
/// nothing. What comes out went in at the other end, and comes out in the order
/// in which it went in. Whether there is a sample depends on what has gone in by
/// now, which another thread decides: of that nothing is claimed.
#[verifier::external_body]
fn try_pop(consumer: &mut SampleConsumer) -> (sample: Option<u32>)
    ensures
        match sample {
            Some(s) => {
                &&& popped(*final(consumer)) == popped(*old(consumer)).push(s)
                &&& popped(*final(consumer)).is_prefix_of(carried_out(*final(consumer)))
                &&& !found_empty(*final(consumer))
            },
            None => {
                &&& popped(*final(consumer)) == popped(*old(consumer))
                &&& found_empty(*final(consumer))
            },
        },
        ring_out(*final(consumer)) == ring_out(*old(consumer)),
        carried_out(*final(consumer)) == carried_out(*old(consumer)),
{
    consumer.inner.try_pop()
}

/// Whether what went in at this end is where all that goes into the ring begins.
pub open spec fn goes_in_order(p: SampleProducer) -> bool {
    pushed(p).is_prefix_of(carried_in(p))
}

/// Whether what came out at this end is where all that goes into the ring begins.
pub open spec fn comes_in_order(c: SampleConsumer) -> bool {
    popped(c).is_prefix_of(carried_out(c))
}

/// The number of samples that a ring for a device holds: two seconds of all its
/// channels.
pub open spec fn ring_size(sample_rate: u32, channels: u16) -> int {
    sample_rate * channels * 2
}

/// Whether a ring for a device can be made: its size is not zero, can be counted
/// in 32 bits, and its bytes can be counted on this machine.
pub open spec fn can_open(sample_rate: u32, channels: u16) -> bool {
    &&& 0 < ring_size(sample_rate, channels) <= u32::MAX
    &&& ring_size(sample_rate, channels) <= usize::MAX as int / 8
}

/// A ring for a device, where one can be made.
pub fn open_ring(sample_rate: u32, channels: u16) -> (ends: Option<
    (SampleProducer, SampleConsumer),
>)
    ensures
        match ends {
            Some((p, c)) => {
                &&& can_open(sample_rate, channels)
                &&& ring_in(p) == ring_out(c)
                &&& carried_in(p) == carried_out(c)
                &&& pushed(p) == Seq::<u32>::empty()
                &&& capacity(p) == ring_size(sample_rate, channels)
                &&& popped(c) == Seq::<u32>::empty()
                &&& goes_in_order(p)
                &&& comes_in_order(c)
            },
            None => !can_open(sample_rate, channels),
        },
{
    proof {
        assert(0 <= sample_rate * channels <= 0xffff_ffff * 0xffff) by (nonlinear_arith)
            requires
                0 <= sample_rate <= 0xffff_ffff,
                0 <= channels <= 0xffff,
        ;
    }
    let size: u64 = sample_rate as u64 * channels as u64 * 2;
    if size == 0 || size > u32::MAX as u64 || size > usize::MAX as u64 / 8 {
        return None;
    }
    let ends: (SampleProducer, SampleConsumer) = sample_ring(size as usize);
    proof {
        assert(goes_in_order(ends.0));
        assert(comes_in_order(ends.1));
    }
    Some(ends)
}

/// Takes in the samples of an audio callback, unless the recording is stopped.
/// Samples for which the ring has no room are dropped, from the end; the result
/// is their number. The recording goes on.
pub fn accumulate_samples(data: &[u32], producer: &mut SampleProducer, stopped: bool) -> (dropped:
    usize)
    ensures
        capacity(*final(producer)) == capacity(*old(producer)),
        ring_in(*final(producer)) == ring_in(*old(producer)),
        carried_in(*final(producer)) == carried_in(*old(producer)),
        goes_in_order(*old(producer)) ==> goes_in_order(*final(producer)),
        stopped ==> dropped == 0 && pushed(*final(producer)) == pushed(*old(producer)),
        !stopped ==> {
            &&& dropped <= data@.len()
            &&& data@.len() - dropped <= capacity(*old(producer))
            &&& dropped > 0 ==> pushed(*final(producer)).len() >= capacity(*old(producer))
            &&& pushed(*old(producer)).len() + data@.len() <= capacity(*old(producer)) ==> dropped
                == 0
            &&& pushed(*final(producer)) == pushed(*old(producer)) + data@.take(
                data@.len() - dropped,
            )
        },
{
    if stopped {
        return 0;
    }
    let written: usize = push_slice(producer, data);
    data.len() - written
}

/// Takes out samples, the eldest first, until the ring is found empty.
pub fn drain_samples(consumer: &mut SampleConsumer) -> (samples: Vec<u32>)
    ensures
        popped(*final(consumer)) == popped(*old(consumer)) + samples@,
        found_empty(*final(consumer)),
        ring_out(*final(consumer)) == ring_out(*old(consumer)),
        carried_out(*final(consumer)) == carried_out(*old(consumer)),
        comes_in_order(*old(consumer)) ==> comes_in_order(*final(consumer)),
{
    let mut samples: Vec<u32> = Vec::new();
    let mut taken: usize = 0;
    proof {
        assert(popped(*consumer) =~= popped(*old(consumer)) + samples@);
    }
    loop
        invariant
            taken == samples@.len(),
            popped(*consumer) == popped(*old(consumer)) + samples@,
            ring_out(*consumer) == ring_out(*old(consumer)),
            carried_out(*consumer) == carried_out(*old(consumer)),
            comes_in_order(*old(consumer)) ==> comes_in_order(*consumer),
        decreases usize::MAX - taken,
    {
        match try_pop(consumer) {
            Some(s) => {
                samples.push(s);
                taken = samples.len();
                proof {
                    assert(popped(*consumer) =~= popped(*old(consumer)) + samples@);
                }
            },
            None => {
                return samples;
            },
        }
    }
}

/// What comes out of a ring is what went in, in the same order: at every
/// position, the sample that came out at one end is the one that went in at the
/// other.
pub proof fn law_samples_come_out_as_they_went_in(p: SampleProducer, c: SampleConsumer, i: int)
    requires
        carried_in(p) == carried_out(c),
        goes_in_order(p),
        comes_in_order(c),
        0 <= i < pushed(p).len(),
        i < popped(c).len(),
    ensures
        popped(c)[i] == pushed(p)[i],
{
}

/// A ring holds two seconds of all the channels of its device, and can be made
/// wherever that is something and can be counted.
pub proof fn law_ring_holds_two_seconds(sample_rate: u32, channels: u16)
    ensures
        ring_size(sample_rate, channels) == 2 * (sample_rate * channels),
        sample_rate > 0 && channels > 0 && sample_rate * channels <= 0xfff_ffff ==> can_open(
            sample_rate,
            channels,
        ) || usize::MAX as int / 8 < ring_size(sample_rate, channels),
        can_open(sample_rate, channels) ==> sample_rate > 0 && channels > 0,
{
    assert(sample_rate > 0 && channels > 0 ==> sample_rate * channels > 0) by (nonlinear_arith);
    assert(sample_rate == 0 || channels == 0 ==> sample_rate * channels == 0) by (nonlinear_arith);
}

} // verus!
