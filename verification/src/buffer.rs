use vstd::prelude::*;

verus! {

/// The most channels a buffer holds.
pub const MAX_BUFFER_CHANNELS: usize = 16;

/// Multi-channel audio data: up to 16 channels of samples, of which the
/// first `channel_count` are in use, read from a common starting offset.
pub struct AudioBufferSlice<T> {
    channel_count: usize,
    buffers: Vec<Vec<T>>,
    offset: usize,
}

impl<T> AudioBufferSlice<T> {
    /// The buffer's invariant: 16 channel slots, at most all in use.
    pub closed spec fn wf(self) -> bool {
        &&& self.buffers@.len() == MAX_BUFFER_CHANNELS
        &&& self.channel_count <= MAX_BUFFER_CHANNELS
    }

    /// How many channels are in use.
    pub closed spec fn count(self) -> nat {
        self.channel_count as nat
    }

    /// Where reading starts in each channel.
    pub closed spec fn start(self) -> nat {
        self.offset as nat
    }

    /// The samples of channel `c` (from its beginning, not from the offset).
    pub closed spec fn channel(self, c: int) -> Seq<T> {
        self.buffers@[c]@
    }
}

/// A copy of the samples.
fn copy_samples<T: Copy>(v: &Vec<T>) -> (r: Vec<T>)
    ensures
        r@ == v@,
{
    let mut out: Vec<T> = Vec::new();
    let mut i: usize = 0;
    while i < v.len()
        invariant
            i <= v@.len(),
            out@ == v@.subrange(0, i as int),
        decreases v@.len() - i,
    {
        out.push(v[i]);
        proof {
            assert(out@ =~= v@.subrange(0, i as int + 1));
        }
        i = i + 1;
    }
    proof {
        assert(out@ =~= v@);
    }
    out
}

impl<T: Copy> AudioBufferSlice<T> {
    /// A buffer of `channel_count` channels, all empty.
    pub fn new(channel_count: usize) -> (r: Self)
        requires
            channel_count <= MAX_BUFFER_CHANNELS,
        ensures
            r.wf(),
            r.count() == channel_count,
            r.start() == 0,
            forall|c: int| 0 <= c < MAX_BUFFER_CHANNELS ==> r.channel(c).len() == 0,
    {
        let mut buffers: Vec<Vec<T>> = Vec::new();
        while buffers.len() < MAX_BUFFER_CHANNELS
            invariant
                buffers@.len() <= MAX_BUFFER_CHANNELS,
                forall|c: int| 0 <= c < buffers@.len() ==> (#[trigger] buffers@[c])@.len() == 0,
            decreases MAX_BUFFER_CHANNELS - buffers@.len(),
        {
            buffers.push(Vec::new());
        }
        AudioBufferSlice { channel_count, buffers, offset: 0 }
    }

    /// A buffer holding the given channels.
    pub fn from(value: Vec<Vec<T>>) -> (r: Self)
        requires
            value@.len() <= MAX_BUFFER_CHANNELS,
        ensures
            r.wf(),
            r.count() == value@.len(),
            r.start() == 0,
            forall|c: int| 0 <= c < value@.len() ==> r.channel(c) == (#[trigger] value@[c])@,
            forall|c: int| value@.len() <= c < MAX_BUFFER_CHANNELS ==> r.channel(c).len() == 0,
    {
        let channel_count = value.len();
        let mut buffers = value;
        while buffers.len() < MAX_BUFFER_CHANNELS
            invariant
                channel_count <= buffers@.len() <= MAX_BUFFER_CHANNELS,
                forall|c: int| 0 <= c < channel_count ==> buffers@[c] == value@[c],
                forall|c: int| channel_count <= c < buffers@.len() ==> (#[trigger] buffers@[c])@.len() == 0,
            decreases MAX_BUFFER_CHANNELS - buffers@.len(),
        {
            buffers.push(Vec::new());
        }
        AudioBufferSlice { channel_count, buffers, offset: 0 }
    }

    /// A buffer holding one channel.
    pub fn from_single_channel(value: Vec<T>) -> (r: Self)
        ensures
            r.wf(),
            r.count() == 1,
            r.start() == 0,
            r.channel(0) == value@,
            forall|c: int| 1 <= c < MAX_BUFFER_CHANNELS ==> r.channel(c).len() == 0,
    {
        let mut channels: Vec<Vec<T>> = Vec::new();
        channels.push(value);
        assert(channels@[0] == value);
        Self::from(channels)
    }

    /// Replaces the samples of channel `channel_index`, which is in use.
    pub fn set(&mut self, channel_index: usize, values: Vec<T>)
        requires
            old(self).wf(),
            channel_index < old(self).count(),
        ensures
            final(self).wf(),
            final(self).count() == old(self).count(),
            final(self).start() == old(self).start(),
            final(self).channel(channel_index as int) == values@,
            forall|c: int| 0 <= c < MAX_BUFFER_CHANNELS && c != channel_index ==> final(self).channel(c) == old(self).channel(c),
    {
        self.buffers.set(channel_index, values);
    }

    /// Adds a channel after those in use.
    pub fn push_channel(&mut self, values: Vec<T>)
        requires
            old(self).wf(),
            old(self).count() < MAX_BUFFER_CHANNELS,
        ensures
            final(self).wf(),
            final(self).count() == old(self).count() + 1,
            final(self).start() == old(self).start(),
            final(self).channel(old(self).count() as int) == values@,
            forall|c: int| 0 <= c < MAX_BUFFER_CHANNELS && c != old(self).count() ==> final(self).channel(c) == old(self).channel(c),
    {
        let channel_index = self.channel_count;
        self.buffers.set(channel_index, values);
        self.channel_count = channel_index + 1;
    }

    /// The same channels, read from `start` on.
    pub fn range_from(&self, start: usize) -> (r: Self)
        requires
            self.wf(),
        ensures
            r.wf(),
            r.count() == self.count(),
            r.start() == start,
            forall|c: int| 0 <= c < MAX_BUFFER_CHANNELS ==> r.channel(c) == self.channel(c),
    {
        let mut buffers: Vec<Vec<T>> = Vec::new();
        let mut c: usize = 0;
        while c < MAX_BUFFER_CHANNELS
            invariant
                c <= MAX_BUFFER_CHANNELS,
                self.buffers@.len() == MAX_BUFFER_CHANNELS,
                buffers@.len() == c,
                forall|k: int| 0 <= k < c ==> (#[trigger] buffers@[k])@ == self.buffers@[k]@,
            decreases MAX_BUFFER_CHANNELS - c,
        {
            buffers.push(copy_samples(&self.buffers[c]));
            c = c + 1;
        }
        AudioBufferSlice { channel_count: self.channel_count, buffers, offset: start }
    }

    /// The length of the first channel (see `channel_count` for the number
    /// of channels).
    pub fn len(&self) -> (r: usize)
        requires
            self.wf(),
        ensures
            r == self.channel(0).len(),
    {
        self.buffers[0].len()
    }

    /// How many channels are in use.
    pub fn channel_count(&self) -> (r: usize)
        ensures
            r == self.count(),
    {
        self.channel_count
    }

    /// Sample `index` (counted from the offset) of channel `channel`.
    pub fn get(&self, channel: usize, index: usize) -> (r: T)
        requires
            self.wf(),
            channel < self.count(),
            self.start() + index < self.channel(channel as int).len(),
        ensures
            r == self.channel(channel as int)[self.start() + index],
    {
        let _len = self.buffers[channel].len();
        self.buffers[channel][self.offset + index]
    }

    /// Writes sample `index` (counted from the offset) of channel `channel`.
    pub fn set_sample(&mut self, channel: usize, index: usize, value: T)
        requires
            old(self).wf(),
            channel < old(self).count(),
            old(self).start() + index < old(self).channel(channel as int).len(),
        ensures
            final(self).wf(),
            final(self).count() == old(self).count(),
            final(self).start() == old(self).start(),
            final(self).channel(channel as int) == old(self).channel(channel as int).update(old(self).start() + index, value),
            forall|c: int| 0 <= c < MAX_BUFFER_CHANNELS && c != channel ==> final(self).channel(c) == old(self).channel(c),
    {
        let _len = self.buffers[channel].len();
        let pos = self.offset + index;
        let mut ch: Vec<T> = Vec::new();
        std::mem::swap(&mut ch, &mut self.buffers[channel]);
        ch.set(pos, value);
        self.buffers.set(channel, ch);
    }

    /// The samples of channel `channel` from the offset on.
    pub fn channel_samples(&self, channel: usize) -> (r: Vec<T>)
        requires
            self.wf(),
            channel < self.count(),
            self.start() <= self.channel(channel as int).len(),
        ensures
            r@ == self.channel(channel as int).subrange(self.start() as int, self.channel(channel as int).len() as int),
    {
        let src = &self.buffers[channel];
        let mut out: Vec<T> = Vec::new();
        let mut i: usize = self.offset;
        while i < src.len()
            invariant
                self.offset <= i <= src@.len(),
                out@ == src@.subrange(self.offset as int, i as int),
            decreases src@.len() - i,
        {
            out.push(src[i]);
            proof {
                assert(out@ =~= src@.subrange(self.offset as int, i as int + 1));
            }
            i = i + 1;
        }
        out
    }
}

} // verus!
