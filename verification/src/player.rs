//! Playback: what is queued for the sound card.

use crate::audio::{channel_count, resample_linear, resampled};
use std::collections::VecDeque;
use vstd::prelude::*;

verus! {

/// The samples that wait to be played, at the rate of the device, one for each
/// of its channels.
pub struct Player {
    queue: VecDeque<i16>,
    device_rate: u32,
    device_channels: u16,
}

/// Mono audio with every sample repeated for each channel.
pub open spec fn spread(mono: Seq<i16>, width: nat) -> Seq<i16> {
    Seq::new(mono.len() * width, |i: int| mono[i / width as int])
}

/// The queue after mono audio at `sample_rate` was put behind it, for a device of
/// `width` channels at `device_rate`.
pub open spec fn queued(
    queue: Seq<i16>,
    data: Seq<i16>,
    sample_rate: nat,
    device_rate: nat,
    width: nat,
) -> Seq<i16> {
    queue + spread(resampled(data, sample_rate, device_rate), width)
}

/// What is left of a queue that is dropped.
pub open spec fn cleared(queue: Seq<i16>) -> Seq<i16> {
    Seq::empty()
}

/// How many frames of `width` samples a queue holds.
pub open spec fn frames_left(queue: Seq<i16>, width: nat) -> nat {
    queue.len() / width
}

/// What is played of a queue in the time of `n` samples.
pub open spec fn played(queue: Seq<i16>, n: nat) -> Seq<i16> {
    Seq::new(
        n,
        |i: int|
            if i < queue.len() {
                queue[i]
            } else {
                0
            },
    )
}

/// What is left of a queue after the time of `n` samples.
pub open spec fn left_over(queue: Seq<i16>, n: nat) -> Seq<i16> {
    if n < queue.len() {
        queue.skip(n as int)
    } else {
        Seq::empty()
    }
}

impl View for Player {
    type V = Seq<i16>;

    closed spec fn view(&self) -> Seq<i16> {
        self.queue@
    }
}

impl Player {
    /// The sample rate of the device.
    pub closed spec fn rate(&self) -> u32 {
        self.device_rate
    }

    /// The number of channels of the device.
    pub closed spec fn channels(&self) -> u16 {
        self.device_channels
    }

    /// A player with nothing to play.
    pub fn new(device_rate: u32, device_channels: u16) -> (r: Self)
        ensures
            r@ == Seq::<i16>::empty(),
            r.rate() == device_rate,
            r.channels() == device_channels,
    {
        Player { queue: VecDeque::new(), device_rate, device_channels }
    }

    /// Queues mono audio at `sample_rate`, at the rate of the device and for
    /// each of its channels.
    pub fn push_pcm16(&mut self, data: &[i16], sample_rate: u32)
        requires
            sample_rate > 0 || sample_rate == old(self).rate() || data@.len() == 0,
        ensures
            final(self)@ == queued(
                old(self)@,
                data@,
                sample_rate as nat,
                old(self).rate() as nat,
                channel_count(old(self).channels()),
            ),
            final(self).rate() == old(self).rate(),
            final(self).channels() == old(self).channels(),
    {
        let mono: Vec<i16> = resample_linear(data, sample_rate, self.device_rate);
        let width: u16 = if self.device_channels == 0 { 1 } else { self.device_channels };
        let ghost before = self.queue@;
        let ghost w = width as int;
        let mut i: usize = 0;
        assert(self.queue@ =~= before + spread(mono@, width as nat).take(0));
        while i < mono.len()
            invariant
                i <= mono@.len(),
                width > 0,
                w == width,
                self.device_rate == old(self).device_rate,
                self.device_channels == old(self).device_channels,
                self.queue@ == before + spread(mono@, width as nat).take(i * w),
            decreases mono@.len() - i,
        {
            let mut c: u16 = 0;
            let ghost all = spread(mono@, width as nat);
            assert(i * w + w == (i + 1) * w && (i + 1) * w <= mono@.len() * w) by (nonlinear_arith)
                requires
                    i + 1 <= mono@.len(),
                    w > 0,
            ;
            while c < width
                invariant
                    i < mono@.len(),
                    c <= width,
                    w == width,
                    width > 0,
                    all == spread(mono@, width as nat),
                    i * w + w <= all.len(),
                    i * w >= 0,
                    self.device_rate == old(self).device_rate,
                    self.device_channels == old(self).device_channels,
                    self.queue@ == before + all.take(i * w + c),
                decreases width - c,
            {
                self.queue.push_back(mono[i]);
                proof {
                    let k = i * w + c;
                    vstd::arithmetic::div_mod::lemma_fundamental_div_mod_converse(k, w, i as int, c as int);
                    assert(all[k] == mono@[i as int]);
                    assert(all.take(k + 1) =~= all.take(k).push(all[k]));
                    assert(self.queue@ =~= before + all.take(k + 1));
                }
                c = c + 1;
            }
            i = i + 1;
        }
        assert(spread(mono@, width as nat).take(i * w) =~= spread(mono@, width as nat));
    }

    /// Drops what is still queued: when the user talks over an answer, the rest
    /// of it is obsolete.
    pub fn clear(&mut self)
        ensures
            final(self)@ == cleared(old(self)@),
            final(self).rate() == old(self).rate(),
            final(self).channels() == old(self).channels(),
    {
        self.queue.clear();
    }

    /// How many frames, of one sample for each channel, are still to be played.
    pub fn queued_frames(&self) -> (r: usize)
        ensures
            r == frames_left(self@, channel_count(self.channels())),
    {
        let width: usize = if self.device_channels == 0 { 1 } else { self.device_channels as usize };
        self.queue.len() / width
    }

    /// Takes the next sample to play: silence where there is none.
    pub fn next_sample(&mut self) -> (r: i16)
        ensures
            r == played(old(self)@, 1)[0],
            final(self)@ == left_over(old(self)@, 1),
            final(self).rate() == old(self).rate(),
            final(self).channels() == old(self).channels(),
    {
        match self.queue.pop_front() {
            Some(sample) => {
                assert(self.queue@ =~= old(self).queue@.skip(1));
                sample
            },
            None => 0,
        }
    }

    /// Takes the next `n` samples to play: what is queued, then silence.
    pub fn fill(&mut self, n: usize) -> (r: Vec<i16>)
        ensures
            r@ == played(old(self)@, n as nat),
            final(self)@ == left_over(old(self)@, n as nat),
            final(self).rate() == old(self).rate(),
            final(self).channels() == old(self).channels(),
    {
        let mut r: Vec<i16> = Vec::new();
        let mut i: usize = 0;
        let ghost all = self@;
        assert(all.skip(0) =~= all);
        while i < n
            invariant
                i <= n,
                r@.len() == i,
                all == old(self)@,
                self@ == (if i < all.len() { all.skip(i as int) } else { Seq::<i16>::empty() }),
                self.rate() == old(self).rate(),
                self.channels() == old(self).channels(),
                forall|j: int|
                    0 <= j < i ==> #[trigger] r@[j] == (if j < all.len() {
                        all[j]
                    } else {
                        0
                    }),
            decreases n - i,
        {
            let ghost rest = self@;
            let sample: i16 = self.next_sample();
            proof {
                if i < all.len() {
                    assert(rest[0] == all[i as int]);
                    assert(rest.skip(1) =~= all.skip(i + 1));
                    assert(all.skip(all.len() as int) =~= Seq::<i16>::empty());
                }
            }
            r.push(sample);
            i = i + 1;
        }
        r
    }
}

/// Audio is played in the order in which it was queued, none of it lost and none
/// twice, and behind it there is silence; it makes no difference in how many
/// pieces the device asks for it.
pub proof fn law_audio_is_played_in_order(queue: Seq<i16>, m: nat, n: nat)
    ensures
        m <= queue.len() ==> played(queue, m) + left_over(queue, m) == queue,
        m >= queue.len() ==> played(queue, m).take(queue.len() as int) == queue && left_over(queue, m).len() == 0,
        played(queue, m).len() == m,
        forall|i: int| queue.len() <= i < m ==> #[trigger] played(queue, m)[i] == 0,
        played(queue, m) + played(left_over(queue, m), n) == played(queue, m + n),
        left_over(left_over(queue, m), n) == left_over(queue, m + n),
{
    if m <= queue.len() {
        assert(played(queue, m) + left_over(queue, m) =~= queue);
    }
    if m >= queue.len() {
        assert(played(queue, m).take(queue.len() as int) =~= queue);
    }
    assert(played(queue, m) + played(left_over(queue, m), n) =~= played(queue, m + n));
    assert(left_over(left_over(queue, m), n) =~= left_over(queue, m + n));
}

/// After the user has talked over an answer nothing of it is heard, however much
/// was queued, and what comes next is heard at once.
pub proof fn law_dropped_audio_is_not_heard(
    queue: Seq<i16>,
    data: Seq<i16>,
    sample_rate: nat,
    device_rate: nat,
    width: nat,
    n: nat,
)
    requires
        width > 0,
    ensures
        forall|i: int| 0 <= i < n ==> #[trigger] played(cleared(queue), n)[i] == 0,
        frames_left(cleared(queue), width) == 0,
        queued(cleared(queue), data, sample_rate, device_rate, width) == spread(
            resampled(data, sample_rate, device_rate),
            width,
        ),
{
    assert(queued(cleared(queue), data, sample_rate, device_rate, width) =~= spread(
        resampled(data, sample_rate, device_rate),
        width,
    ));
    assert(0nat / width == 0) by (nonlinear_arith)
        requires
            width > 0,
    ;
}

/// Queueing keeps what was queued before, and adds the whole of the new audio
/// behind it: at the rate of the device each sample once for each channel, and
/// at another rate as many as last equally long, whatever is queued already.
pub proof fn law_audio_is_queued_behind(
    queue: Seq<i16>,
    data: Seq<i16>,
    sample_rate: nat,
    device_rate: nat,
    width: nat,
)
    requires
        width > 0,
    ensures
        ({
            let after = queued(queue, data, sample_rate, device_rate, width);
            let added = after.skip(queue.len() as int);
            &&& after.take(queue.len() as int) == queue
            &&& added == queued(Seq::empty(), data, sample_rate, device_rate, width)
            &&& added.len() == resampled(data, sample_rate, device_rate).len() * width
            &&& forall|i: int|
                0 <= i < added.len() ==> #[trigger] added[i] == resampled(data, sample_rate, device_rate)[i
                    / width as int]
            &&& sample_rate == device_rate ==> added.len() == data.len() * width && forall|i: int|
                0 <= i < added.len() ==> #[trigger] added[i] == data[i / width as int]
        }),
{
    let after = queued(queue, data, sample_rate, device_rate, width);
    let added = after.skip(queue.len() as int);
    assert(after.take(queue.len() as int) =~= queue);
    assert(added =~= queued(Seq::empty(), data, sample_rate, device_rate, width));
}

/// Queued audio is played on every channel, behind what was queued before, and
/// counts as many frames as it has samples.
pub proof fn law_queued_audio_is_played(queue: Seq<i16>, mono: Seq<i16>, width: nat, i: int, channel: int)
    requires
        width > 0,
        queue.len() % width == 0,
        0 <= i < mono.len(),
        0 <= channel < width,
    ensures
        (queue + spread(mono, width))[queue.len() + i * width + channel] == mono[i],
        frames_left(queue + spread(mono, width), width) == frames_left(queue, width) + mono.len(),
        frames_left(queue, width) * width == queue.len(),
{
    let w = width as int;
    let k = i * w + channel;
    assert(0 <= k < mono.len() * w) by (nonlinear_arith)
        requires
            k == i * w + channel,
            0 <= i < mono.len(),
            0 <= channel < w,
    ;
    vstd::arithmetic::div_mod::lemma_fundamental_div_mod_converse(k, w, i, channel);
    let q = queue.len() as int / w;
    vstd::arithmetic::div_mod::lemma_fundamental_div_mod(queue.len() as int, w);
    assert(q * w == w * q) by (nonlinear_arith);
    assert(queue.len() + mono.len() * w == (q + mono.len()) * w) by (nonlinear_arith)
        requires
            queue.len() == w * q,
    ;
    vstd::arithmetic::div_mod::lemma_fundamental_div_mod_converse(
        queue.len() + mono.len() * w,
        w,
        q + mono.len(),
        0,
    );
}

} // verus!
