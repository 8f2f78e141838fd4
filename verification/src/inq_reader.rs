//! The input multiplexer: many partition streams merged into one, each
//! partition in its own order, with sources handed back to the caller after
//! every item so that the caller decides which of them are polled again.

use crate::message::ArrowMessage;
use vstd::prelude::*;

verus! {

/// The messages that one input partition has ready, as a source to pull from.
pub struct PartitionStream {
    partition: usize,
    items: Vec<ArrowMessage>,
    cursor: usize,
}

impl PartitionStream {
    /// The partition that the stream belongs to.
    pub closed spec fn partition(&self) -> usize {
        self.partition
    }

    /// The messages not yet pulled, the next one first.
    pub closed spec fn remaining(&self) -> Seq<ArrowMessage> {
        self.items@.skip(self.cursor as int)
    }

    /// The place of the next message lies within the messages.
    pub closed spec fn wf(&self) -> bool {
        self.cursor <= self.items@.len()
    }

    /// The stream with its next message taken off.
    pub closed spec fn advance(self) -> PartitionStream {
        PartitionStream {
            partition: self.partition,
            items: self.items,
            cursor: (self.cursor + 1) as usize,
        }
    }

    /// What `advance` leaves of a stream that has a message.
    pub proof fn lemma_advance(self)
        requires
            self.wf(),
            self.remaining().len() > 0,
        ensures
            self.advance().wf(),
            self.advance().partition() == self.partition(),
            self.advance().remaining() =~= self.remaining().skip(1),
    {
        assert(self.items.len() == self.items@.len());
    }

    /// A stream of partition `partition` that yields `items` in their order.
    pub fn new(partition: usize, items: Vec<ArrowMessage>) -> (s: Self)
        ensures
            s.wf(),
            s.partition() == partition,
            s.remaining() == items@,
    {
        let s = PartitionStream { partition, items, cursor: 0 };
        assert(s.remaining() =~= items@);
        s
    }

    /// The partition that the stream belongs to.
    pub fn index(&self) -> (p: usize)
        ensures
            p == self.partition(),
    {
        self.partition
    }

    /// Whether the stream has nothing left.
    pub fn is_exhausted(&self) -> (b: bool)
        requires
            self.wf(),
        ensures
            b == (self.remaining().len() == 0),
    {
        self.cursor >= self.items.len()
    }

    /// The next message of a stream that has one.
    pub fn head(&self) -> (m: ArrowMessage)
        requires
            self.wf(),
            self.remaining().len() > 0,
        ensures
            m == self.remaining()[0],
    {
        self.items[self.cursor]
    }

    /// Takes the next message off the stream, if there is one.
    pub fn pull(&mut self) -> (m: Option<ArrowMessage>)
        requires
            old(self).wf(),
        ensures
            final(self).wf(),
            final(self).partition() == old(self).partition(),
            match m {
                Some(m) => old(self).remaining().len() > 0 && m == old(self).remaining()[0]
                    && final(self).remaining() == old(self).remaining().skip(1) && *final(self)
                    == old(self).advance(),
                None => old(self).remaining().len() == 0 && *final(self) == *old(self),
            },
    {
        if self.cursor < self.items.len() {
            let m = self.items[self.cursor];
            self.cursor = self.cursor + 1;
            assert(self.remaining() =~= old(self).remaining().skip(1));
            Some(m)
        } else {
            None
        }
    }
}

/// Whether `i` is the place of the first stream of `s` that has a message
/// ready, or the length of `s` where none has.
pub open spec fn is_first_ready(s: Seq<PartitionStream>, i: int) -> bool {
    &&& 0 <= i <= s.len()
    &&& forall|j: int| 0 <= j < i ==> (#[trigger] s[j]).remaining().len() == 0
    &&& i < s.len() ==> s[i].remaining().len() > 0
}

/// The place of the first stream of `s` that has a message ready.
pub open spec fn first_ready(s: Seq<PartitionStream>) -> int {
    choose|i: int| is_first_ready(s, i)
}

/// Every sequence of streams has such a place: the scan from place `k`, with
/// nothing ready before it, finds it.
pub proof fn lemma_first_ready_exists(s: Seq<PartitionStream>, k: int)
    requires
        0 <= k <= s.len(),
        forall|j: int| 0 <= j < k ==> (#[trigger] s[j]).remaining().len() == 0,
    ensures
        is_first_ready(s, first_ready(s)),
    decreases s.len() - k,
{
    if k == s.len() || s[k].remaining().len() > 0 {
        assert(is_first_ready(s, k));
    } else {
        lemma_first_ready_exists(s, k + 1);
    }
}

/// There is one such place only.
pub proof fn lemma_first_ready(s: Seq<PartitionStream>, i: int)
    requires
        is_first_ready(s, i),
    ensures
        first_ready(s) == i,
{
    let k = first_ready(s);
    if k < i {
        assert(s[k].remaining().len() == 0);
    } else if i < k {
        assert(s[i].remaining().len() == 0);
    }
}

/// The registered sources of a task, in the order in which they were
/// registered.
pub struct InQReader {
    streams: Vec<PartitionStream>,
}

impl InQReader {
    /// The registered sources, the one polled first at the front.
    pub closed spec fn view(&self) -> Seq<PartitionStream> {
        self.streams@
    }

    /// Every registered source is sound.
    pub closed spec fn wf(&self) -> bool {
        forall|i: int| 0 <= i < self.streams@.len() ==> (#[trigger] self.streams@[i]).wf()
    }

    /// What `wf` says of the source at place `i`.
    pub proof fn lemma_wf(&self, i: int)
        requires
            self.wf(),
            0 <= i < self@.len(),
        ensures
            self@[i].wf(),
    {
    }

    /// A multiplexer without sources.
    pub fn new() -> (r: Self)
        ensures
            r.wf(),
            r@.len() == 0,
    {
        InQReader { streams: Vec::new() }
    }

    /// The number of registered sources.
    pub fn len(&self) -> (n: usize)
        ensures
            n == self@.len(),
    {
        self.streams.len()
    }

    /// Registers `stream`, behind the sources that are registered already.
    pub fn push(&mut self, stream: PartitionStream)
        requires
            old(self).wf(),
            stream.wf(),
        ensures
            final(self).wf(),
            final(self)@ == old(self)@.push(stream),
    {
        self.streams.push(stream);
    }

    /// Registers every source of `streams`, in their order, behind the
    /// sources that are registered already, and leaves `streams` empty.
    pub fn append(&mut self, streams: &mut Vec<PartitionStream>)
        requires
            old(self).wf(),
            forall|i: int| 0 <= i < old(streams)@.len() ==> (#[trigger] old(streams)@[i]).wf(),
        ensures
            final(self).wf(),
            final(self)@ == old(self)@ + old(streams)@,
            final(streams)@.len() == 0,
    {
        self.streams.append(streams);
    }

    /// The partition and the message that `next` would hand out, if any.
    pub fn peek(&self) -> (r: Option<(usize, ArrowMessage)>)
        requires
            self.wf(),
        ensures
            is_first_ready(self@, first_ready(self@)),
            match r {
                Some((partition, message)) => {
                    let source = self@[first_ready(self@)];
                    &&& first_ready(self@) < self@.len()
                    &&& partition == source.partition()
                    &&& message == source.remaining()[0]
                },
                None => first_ready(self@) == self@.len(),
            },
    {
        let mut i: usize = 0;
        while i < self.streams.len() && self.streams[i].is_exhausted()
            invariant
                self.wf(),
                i <= self.streams@.len(),
                forall|j: int| 0 <= j < i ==> (#[trigger] self.streams@[j]).remaining().len() == 0,
            decreases self.streams@.len() - i,
        {
            i += 1;
        }
        proof {
            lemma_first_ready(self@, i as int);
        }
        if i == self.streams.len() {
            None
        } else {
            Some((self.streams[i].index(), self.streams[i].head()))
        }
    }

    /// Hands out the next message of the first registered source that has
    /// one, with its partition and with the source itself, which is no longer
    /// registered: the caller pushes it again or keeps it. The sources before
    /// it had nothing left and are dropped; those behind it stay. Where no
    /// source has a message the multiplexer is exhausted: it answers `None`
    /// and holds no source any more.
    pub fn next(&mut self) -> (r: Option<((usize, ArrowMessage), PartitionStream)>)
        requires
            old(self).wf(),
        ensures
            final(self).wf(),
            is_first_ready(old(self)@, first_ready(old(self)@)),
            match r {
                Some(((partition, message), stream)) => {
                    let source = old(self)@[first_ready(old(self)@)];
                    &&& first_ready(old(self)@) < old(self)@.len()
                    &&& partition == source.partition()
                    &&& message == source.remaining()[0]
                    &&& stream.wf()
                    &&& stream.partition() == partition
                    &&& stream.remaining() == source.remaining().skip(1)
                    &&& stream == source.advance()
                    &&& final(self)@ =~= old(self)@.skip(first_ready(old(self)@) + 1)
                },
                None => first_ready(old(self)@) == old(self)@.len() && final(self)@.len() == 0,
            },
    {
        let mut i: usize = 0;
        while i < self.streams.len() && self.streams[i].is_exhausted()
            invariant
                self.wf(),
                self@ == old(self)@,
                i <= self.streams@.len(),
                forall|j: int| 0 <= j < i ==> (#[trigger] self.streams@[j]).remaining().len() == 0,
            decreases self.streams@.len() - i,
        {
            i += 1;
        }
        proof {
            lemma_first_ready(self@, i as int);
        }
        if i == self.streams.len() {
            self.streams = Vec::new();
            return None;
        }
        let rest = self.streams.split_off(i + 1);
        let popped = self.streams.pop();
        self.streams = rest;
        match popped {
            Some(mut stream) => {
                let partition = stream.index();
                match stream.pull() {
                    Some(message) => Some(((partition, message), stream)),
                    None => None,
                }
            },
            None => None,
        }
    }
}

} // verus!
