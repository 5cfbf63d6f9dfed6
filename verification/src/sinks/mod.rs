//! Storage for the samples that sinks collect, one buffer per channel.

use vstd::prelude::*;

verus! {

/// `cb` may have been called with channel index `c` and a slice holding
/// `samples`, and have returned.
pub open spec fn visited_with<T, F: FnMut(usize, &[T])>(cb: F, c: usize, samples: Seq<T>) -> bool {
    exists|s: &[T]| s@ == samples && call_ensures(cb, (c, s), ())
}

/// One growable buffer of samples per channel.
#[derive(Debug, Clone)]
pub struct ChannelBuffers<T: Clone> {
    buffers: Vec<Vec<T>>,
}

impl<T: Clone> View for ChannelBuffers<T> {
    type V = Seq<Seq<T>>;

    closed spec fn view(&self) -> Seq<Seq<T>> {
        Seq::new(self.buffers@.len(), |i: int| self.buffers@[i]@)
    }
}

impl<T: Clone> ChannelBuffers<T> {
    /// No channels.
    pub fn new() -> (r: Self)
        ensures
            r@ == Seq::<Seq<T>>::empty(),
    {
        let r = ChannelBuffers { buffers: Vec::new() };
        assert(r@ =~= Seq::<Seq<T>>::empty());
        r
    }

    /// Replaces the channels with `num_channels` empty ones.
    pub fn create_channels(&mut self, num_channels: usize, capacity_per_channel: usize)
        ensures
            final(self)@ == Seq::new(num_channels as nat, |_i: int| Seq::<T>::empty()),
    {
        self.buffers.clear();
        for i in 0..num_channels
            invariant
                self.buffers@.len() == i,
                forall|j: int| 0 <= j < i ==> (#[trigger] self.buffers@[j])@ == Seq::<T>::empty(),
        {
            let v: Vec<T> = Vec::with_capacity(capacity_per_channel);
            self.buffers.push(v);
        }
        assert(self@ =~= Seq::new(num_channels as nat, |_i: int| Seq::<T>::empty()));
    }

    /// Appends copies of `data` to the channel.
    pub fn feed_channel(&mut self, channel: usize, data: &[T])
        requires
            channel < old(self)@.len(),
        ensures
            final(self)@.len() == old(self)@.len(),
            forall|c: int| 0 <= c < old(self)@.len() && c != channel ==> #[trigger] final(self)@[c] == old(self)@[c],
            final(self)@[channel as int].len() == old(self)@[channel as int].len() + data@.len(),
            forall|i: int|
                0 <= i < old(self)@[channel as int].len() ==> #[trigger] final(self)@[channel as int][i] == old(
                    self,
                )@[channel as int][i],
            forall|i: int|
                0 <= i < data@.len() ==> cloned::<T>(
                    data@[i],
                    #[trigger] final(self)@[channel as int][old(self)@[channel as int].len() + i],
                ),
    {
        let mut buf: Vec<T> = Vec::new();
        std::mem::swap(&mut buf, &mut self.buffers[channel]);
        buf.extend_from_slice(data);
        self.buffers.set(channel, buf);
        assert forall|c: int| 0 <= c < old(self)@.len() && c != channel implies #[trigger] self@[c] == old(self)@[c] by {}
    }

    /// The number of channels.
    pub fn num_channels(&self) -> (r: usize)
        ensures
            r == self@.len(),
    {
        self.buffers.len()
    }

    /// The stored samples of a channel.
    pub fn get_channel(&self, channel: usize) -> (r: &[T])
        requires
            channel < self@.len(),
        ensures
            r@ == self@[channel as int],
    {
        self.buffers[channel].as_slice()
    }

    /// The stored samples of a channel, or `None` when there is no such channel.
    pub fn try_get_channel(&self, channel: usize) -> (r: Option<&[T]>)
        ensures
            channel < self@.len() ==> (r matches Some(s) && s@ == self@[channel as int]),
            channel >= self@.len() ==> r is None,
    {
        if channel < self.buffers.len() {
            Some(self.buffers[channel].as_slice())
        } else {
            None
        }
    }

    /// Takes the stored samples of a channel out, leaving it empty.
    pub fn take_channel(&mut self, channel: usize) -> (r: Vec<T>)
        requires
            channel < old(self)@.len(),
        ensures
            r@ == old(self)@[channel as int],
            final(self)@ == old(self)@.update(channel as int, Seq::<T>::empty()),
    {
        let mut r: Vec<T> = Vec::new();
        std::mem::swap(&mut r, &mut self.buffers[channel]);
        assert(self@ =~= old(self)@.update(channel as int, Seq::<T>::empty()));
        r
    }

    /// Takes the stored samples of every channel out, leaving each empty.
    pub fn take(&mut self) -> (r: Vec<Vec<T>>)
        ensures
            r@.len() == old(self)@.len(),
            forall|c: int| 0 <= c < r@.len() ==> (#[trigger] r@[c])@ == old(self)@[c],
            final(self)@ == Seq::new(old(self)@.len(), |_i: int| Seq::<T>::empty()),
    {
        let n = self.buffers.len();
        let mut out: Vec<Vec<T>> = Vec::new();
        for c in 0..n
            invariant
                n == old(self)@.len(),
                self@.len() == n,
                out@.len() == c,
                forall|j: int| 0 <= j < c ==> (#[trigger] out@[j])@ == old(self)@[j],
                forall|j: int| 0 <= j < c ==> (#[trigger] self@[j]) == Seq::<T>::empty(),
                forall|j: int| c <= j < n ==> (#[trigger] self@[j]) == old(self)@[j],
        {
            let taken = self.take_channel(c);
            out.push(taken);
        }
        assert(self@ =~= Seq::new(old(self)@.len(), |_i: int| Seq::<T>::empty()));
        out
    }

    /// Empties a channel.
    pub fn clear_channel(&mut self, channel: usize)
        requires
            channel < old(self)@.len(),
        ensures
            final(self)@ == old(self)@.update(channel as int, Seq::<T>::empty()),
    {
        let _ = self.take_channel(channel);
    }

    /// Calls `cb` with each channel's index and stored samples, in channel
    /// order, and empties each channel after its call.
    pub fn visit<F: FnMut(usize, &[T])>(&mut self, cb: F)
        requires
            forall|i: usize, s: &[T]| call_requires(cb, (i, s)),
        ensures
            final(self)@ == Seq::new(old(self)@.len(), |_i: int| Seq::<T>::empty()),
            forall|c: usize| c < old(self)@.len() ==> #[trigger] visited_with(cb, c, old(self)@[c as int]),
    {
        let ghost cb0 = cb;
        let mut cb = cb;
        let n = self.buffers.len();
        for c in 0..n
            invariant
                n == old(self)@.len(),
                self@.len() == n,
                cb == cb0,
                forall|i: usize, s: &[T]| call_requires(cb, (i, s)),
                forall|j: int| 0 <= j < c ==> (#[trigger] self@[j]) == Seq::<T>::empty(),
                forall|j: int| c <= j < n ==> (#[trigger] self@[j]) == old(self)@[j],
                forall|d: usize| d < c ==> #[trigger] visited_with(cb0, d, old(self)@[d as int]),
        {
            let samples = self.get_channel(c);
            cb(c, samples);
            assert(samples@ == old(self)@[c as int] && call_ensures(cb0, (c, samples), ()));
            assert(visited_with(cb0, c, old(self)@[c as int]));
            self.clear_channel(c);
        }
        assert(self@ =~= Seq::new(old(self)@.len(), |_i: int| Seq::<T>::empty()));
    }

    /// Calls `cb` with the stored samples of a channel, and clears that
    /// channel after the call.
    pub fn visit_channel<F: FnMut(&[T])>(&mut self, channel: usize, cb: F)
        requires
            channel < old(self)@.len(),
            forall|s: &[T]| call_requires(cb, (s,)),
        ensures
            final(self)@ == old(self)@.update(channel as int, Seq::<T>::empty()),
            exists|s: &[T]| s@ == old(self)@[channel as int] && call_ensures(cb, (s,), ()),
    {
        let mut cb = cb;
        let samples = self.get_channel(channel);
        cb(samples);
        assert(samples@ == old(self)@[channel as int] && call_ensures(cb, (samples,), ()));
        self.clear_channel(channel);
    }

    /// The stored samples of a channel, to be changed in place.
    pub fn get_channel_mut(&mut self, channel: usize) -> (r: &mut [T])
        requires
            channel < old(self)@.len(),
        ensures
            r@ == old(self)@[channel as int],
            final(self)@ == old(self)@.update(channel as int, final(r)@),
    {
        self.buffers[channel].as_mut_slice()
    }

    /// The stored samples of a channel, to be changed in place, or `None` when
    /// there is no such channel.
    pub fn try_get_channel_mut(&mut self, channel: usize) -> (r: Option<&mut [T]>)
        ensures
            channel >= old(self)@.len() ==> r is None && final(self)@ == old(self)@,
            channel < old(self)@.len() ==> (r matches Some(s) && s@ == old(self)@[channel as int]
                && final(self)@ == old(self)@.update(channel as int, final(s)@)),
    {
        if channel < self.buffers.len() {
            Some(self.get_channel_mut(channel))
        } else {
            None
        }
    }

    /// The buffer of a channel, to be appended to in place.
    pub fn get_buffer_mut(&mut self, channel: usize) -> (r: &mut Vec<T>)
        requires
            channel < old(self)@.len(),
        ensures
            r@ == old(self)@[channel as int],
            final(self)@ == old(self)@.update(channel as int, final(r)@),
    {
        &mut self.buffers[channel]
    }
}

} // verus!
