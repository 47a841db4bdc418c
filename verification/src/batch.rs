//! Batches of outbound packets that go out in one segmented send, and the
//! splitting of merged inbound packets.

use vstd::prelude::*;

use crate::addr::SocketAddr;
use crate::bytes::copy_of;
use crate::bytes::push_all;

verus! {

/// Number of packets after which a batch is sent.
pub const SEND_BATCH: usize = 32;

/// Number of reads between two waits for a readable socket.
pub const RECV_BATCH: usize = 32;

/// The bytes of each packet.
pub open spec fn contents(s: Seq<Vec<u8>>) -> Seq<Seq<u8>> {
    s.map_values(|p: Vec<u8>| p@)
}

/// The packets one behind the other.
pub open spec fn joined(s: Seq<Seq<u8>>) -> Seq<u8>
    decreases s.len(),
{
    if s.len() == 0 {
        Seq::empty()
    } else {
        s[0] + joined(s.skip(1))
    }
}

/// Packets for one destination, of which all but the last are of one size and
/// the last is not longer.
#[derive(Debug)]
pub struct Burst {
    pub to: SocketAddr,
    pub segment_size: usize,
    pub packets: Vec<Vec<u8>>,
}

/// Whether packets can go out in one segmented send with this segment size.
pub open spec fn segmentable(packets: Seq<Seq<u8>>, segment_size: nat) -> bool {
    &&& packets.len() > 0
    &&& forall|i: int| 0 <= i < packets.len() - 1 ==> (#[trigger] packets[i]).len() == segment_size
    &&& packets.last().len() <= segment_size
}

impl Burst {
    /// Not empty, not over the limit, and fit for one segmented send.
    pub open spec fn wf(&self) -> bool {
        &&& segmentable(contents(self.packets@), self.segment_size as nat)
        &&& self.packets@.len() <= SEND_BATCH
        &&& self.packets@[0]@.len() == self.segment_size
    }
}

/// Packets that wait to be sent to one destination.
#[derive(Debug)]
pub struct SendBatch {
    pub to: Option<SocketAddr>,
    pub segment_size: usize,
    pub packets: Vec<Vec<u8>>,
}

impl SendBatch {
    /// There is a destination exactly where there are packets.
    pub open spec fn wf(&self) -> bool {
        self.to is None <==> self.packets@.len() == 0
    }

    /// Whether a packet can join the waiting ones.
    pub open spec fn compatible(&self, len: nat, to: SocketAddr) -> bool {
        &&& self.to == Some(to)
        &&& len <= self.segment_size
        &&& len == self.segment_size || self.packets@.len() + 1 <= SEND_BATCH
    }

    /// A batch without packets.
    pub fn new() -> (r: Self)
        ensures
            r.wf(),
            r.to is None,
            r.segment_size == 0,
            r.packets@.len() == 0,
    {
        SendBatch { to: None, segment_size: 0, packets: Vec::new() }
    }

    /// Start a batch: its first packet fixes the destination and the segment size.
    pub fn push_first(&mut self, packet: Vec<u8>, to: SocketAddr)
        requires
            old(self).packets@.len() == 0,
        ensures
            final(self).wf(),
            final(self).to == Some(to),
            final(self).segment_size == packet@.len(),
            final(self).packets@ == seq![packet],
    {
        self.segment_size = packet.len();
        self.to = Some(to);
        self.packets.push(packet);
        assert(self.packets@ =~= seq![packet]);
    }

    /// Add a packet to the batch, or hand it back if it cannot join.
    pub fn try_push(&mut self, packet: Vec<u8>, to: SocketAddr) -> (r: Option<Vec<u8>>)
        requires
            old(self).wf(),
        ensures
            final(self).wf(),
            if old(self).packets@.len() == 0 {
                &&& r is None
                &&& final(self).to == Some(to)
                &&& final(self).segment_size == packet@.len()
                &&& final(self).packets@ == seq![packet]
            } else if old(self).compatible(packet@.len(), to) {
                &&& r is None
                &&& final(self).to == old(self).to
                &&& final(self).segment_size == old(self).segment_size
                &&& final(self).packets@ == old(self).packets@.push(packet)
            } else {
                r == Some(packet) && *final(self) == *old(self)
            },
    {
        if self.packets.len() == 0 {
            self.push_first(packet, to);
            return None;
        }
        let same_destination = match self.to {
            Some(t) => t == to,
            None => false,
        };
        let compatible = same_destination && packet.len() <= self.segment_size && (packet.len()
            == self.segment_size || self.packets.len() < SEND_BATCH);
        if compatible {
            self.packets.push(packet);
            None
        } else {
            Some(packet)
        }
    }

    /// Whether the last packet is shorter than a segment: no packet can follow it.
    pub fn ends_with_short_segment(&self) -> (r: bool)
        ensures
            r == (self.packets@.len() > 0 && self.packets@.last()@.len() < self.segment_size),
    {
        let n: usize = self.packets.len();
        n > 0 && self.packets[n - 1].len() < self.segment_size
    }

    /// Take the waiting packets out.
    pub fn take(&mut self) -> (r: Option<Burst>)
        requires
            old(self).wf(),
        ensures
            final(self).wf(),
            final(self).to is None,
            final(self).packets@.len() == 0,
            match (old(self).to, r) {
                (Some(to), Some(b)) => {
                    &&& b.to == to
                    &&& b.segment_size == old(self).segment_size
                    &&& b.packets@ == old(self).packets@
                    &&& final(self).segment_size == 0
                },
                (None, None) => final(self).segment_size == old(self).segment_size,
                _ => false,
            },
    {
        let to = match self.to {
            Some(to) => to,
            None => return None,
        };
        self.to = None;
        let segment_size: usize = self.segment_size;
        self.segment_size = 0;
        let mut packets: Vec<Vec<u8>> = Vec::new();
        std::mem::swap(&mut packets, &mut self.packets);
        Some(Burst { to, segment_size, packets })
    }
}

/// A batch: its destination, the size of its segments and its packets.
#[verifier::ext_equal]
pub struct BatchView {
    pub to: Option<SocketAddr>,
    pub segment_size: nat,
    pub packets: Seq<Seq<u8>>,
}

impl View for SendBatch {
    type V = BatchView;

    open spec fn view(&self) -> BatchView {
        BatchView {
            to: self.to,
            segment_size: self.segment_size as nat,
            packets: contents(self.packets@),
        }
    }
}

impl View for Burst {
    type V = BatchView;

    open spec fn view(&self) -> BatchView {
        BatchView {
            to: Some(self.to),
            segment_size: self.segment_size as nat,
            packets: contents(self.packets@),
        }
    }
}

impl BatchView {
    /// No packet.
    pub open spec fn nothing() -> Self {
        BatchView { to: None, segment_size: 0, packets: Seq::empty() }
    }

    /// A batch of one packet.
    pub open spec fn started(packet: Seq<u8>, to: SocketAddr) -> Self {
        BatchView { to: Some(to), segment_size: packet.len(), packets: seq![packet] }
    }

    /// The batch with one more packet.
    pub open spec fn extended(self, packet: Seq<u8>) -> Self {
        BatchView {
            to: self.to,
            segment_size: self.segment_size,
            packets: self.packets.push(packet),
        }
    }

    /// Whether a packet can join.
    pub open spec fn takes(self, packet: Seq<u8>, to: SocketAddr) -> bool {
        &&& self.packets.len() > 0
        &&& self.to == Some(to)
        &&& packet.len() <= self.segment_size
        &&& packet.len() == self.segment_size || self.packets.len() + 1 <= SEND_BATCH
    }

    /// The bursts that send the batch: one, or none if there is no packet.
    pub open spec fn as_bursts(self) -> Seq<BatchView> {
        if self.packets.len() == 0 {
            Seq::empty()
        } else {
            seq![self]
        }
    }
}

/// The bursts in a list.
pub open spec fn burst_views(s: Seq<Burst>) -> Seq<BatchView> {
    s.map_values(|b: Burst| b@)
}

/// What waits in a flush, and how many packets it took in since the batch was last
/// sent because of their number.
#[verifier::ext_equal]
pub struct FlushState {
    pub batch: BatchView,
    pub round: nat,
}

impl FlushState {
    /// All waiting packets are full segments, and there are not too many.
    pub open spec fn wf(self) -> bool {
        &&& self.batch.to is None <==> self.batch.packets.len() == 0
        &&& self.batch.packets.len() == 0 ==> self.batch.segment_size == 0
        &&& self.batch.packets.len() <= self.round < SEND_BATCH
        &&& forall|i: int|
            0 <= i < self.batch.packets.len() ==> (#[trigger] self.batch.packets[i]).len()
                == self.batch.segment_size
    }

    /// The batch after the next packet, before anything is sent because of it.
    pub open spec fn loaded(self, packet: Seq<u8>, to: SocketAddr) -> BatchView {
        if self.batch.takes(packet, to) {
            self.batch.extended(packet)
        } else {
            BatchView::started(packet, to)
        }
    }

    /// Whether the batch goes out with the next packet: no packet can follow a
    /// short one, and a round is complete.
    pub open spec fn sends(self, packet: Seq<u8>, to: SocketAddr) -> bool {
        packet.len() < self.loaded(packet, to).segment_size || self.round + 1 == SEND_BATCH
    }

    /// The bursts to send after the next packet: what waited, if the packet cannot
    /// join it, and the batch with the packet, if it goes out at once.
    pub open spec fn bursts(self, packet: Seq<u8>, to: SocketAddr) -> Seq<BatchView> {
        let first = if self.batch.takes(packet, to) {
            Seq::empty()
        } else {
            self.batch.as_bursts()
        };
        if self.sends(packet, to) {
            first + self.loaded(packet, to).as_bursts()
        } else {
            first
        }
    }

    /// The state after the next packet.
    pub open spec fn after(self, packet: Seq<u8>, to: SocketAddr) -> FlushState {
        FlushState {
            batch: if self.sends(packet, to) {
                BatchView::nothing()
            } else {
                self.loaded(packet, to)
            },
            round: if self.round + 1 == SEND_BATCH {
                0
            } else {
                self.round + 1
            },
        }
    }
}

/// The flushing of one connection: packets go in as the connection hands them
/// out, bursts come out.
#[derive(Debug)]
pub struct Flush {
    batch: SendBatch,
    round: usize,
}

impl View for Flush {
    type V = FlushState;

    closed spec fn view(&self) -> FlushState {
        FlushState { batch: self.batch@, round: self.round as nat }
    }
}

impl Flush {
    /// Nothing waits.
    pub fn new() -> (r: Self)
        ensures
            r@.wf(),
            r@ == (FlushState { batch: BatchView::nothing(), round: 0 }),
    {
        let r = Flush { batch: SendBatch::new(), round: 0 };
        assert(r@ =~= FlushState { batch: BatchView::nothing(), round: 0 });
        r
    }

    /// Take in the next packet of the connection. The bursts to send now come back.
    pub fn on_packet(&mut self, packet: Vec<u8>, to: SocketAddr) -> (r: Vec<Burst>)
        requires
            old(self)@.wf(),
        ensures
            final(self)@.wf(),
            final(self)@ == old(self)@.after(packet@, to),
            burst_views(r@) == old(self)@.bursts(packet@, to),
            forall|i: int| 0 <= i < r@.len() ==> (#[trigger] r@[i]).wf(),
    {
        let mut bursts: Vec<Burst> = Vec::new();
        let ghost bytes = packet@;
        let ghost start = self@;
        assert(burst_views(bursts@) =~= Seq::empty());
        proof {
            assert forall|i: int| 0 <= i < self.batch.packets@.len() implies (
            #[trigger] self.batch.packets@[i])@.len() == self.batch.segment_size by {
                assert(start.batch.packets[i].len() == start.batch.segment_size);
            }
        }
        if let Some(pending) = self.batch.try_push(packet, to) {
            push_burst(&mut self.batch, &mut bursts);
            self.batch.push_first(pending, to);
        }
        proof {
            assert(self.batch@ =~= start.loaded(bytes, to));
            assert(ready(self.batch));
        }
        let short = self.batch.ends_with_short_segment();
        if short {
            push_burst(&mut self.batch, &mut bursts);
        }
        self.round = self.round + 1;
        if self.round == SEND_BATCH {
            self.round = 0;
            push_burst(&mut self.batch, &mut bursts);
        }
        proof {
            assert(burst_views(bursts@) =~= start.bursts(bytes, to));
            assert(self@ =~= start.after(bytes, to));
        }
        bursts
    }

    /// The connection has no more packets: send what waits.
    pub fn finish(&mut self) -> (r: Option<Burst>)
        requires
            old(self)@.wf(),
        ensures
            final(self)@ == (FlushState { batch: BatchView::nothing(), round: old(self)@.round }),
            match r {
                Some(b) => b.wf() && old(self)@.batch.as_bursts() == seq![b@],
                None => old(self)@.batch.packets.len() == 0,
            },
    {
        let ghost start = self@;
        proof {
            assert forall|i: int| 0 <= i < self.batch.packets@.len() implies (
            #[trigger] self.batch.packets@[i])@.len() == self.batch.segment_size by {
                assert(start.batch.packets[i].len() == start.batch.segment_size);
            }
        }
        let r = self.batch.take();
        assert(self@ =~= FlushState { batch: BatchView::nothing(), round: start.round });
        r
    }
}

/// Whether a batch can be sent as one burst.
spec fn ready(b: SendBatch) -> bool {
    &&& b.wf()
    &&& b.packets@.len() <= SEND_BATCH
    &&& b.packets@.len() == 0 ==> b.segment_size == 0
    &&& b.packets@.len() > 0 ==> {
        &&& segmentable(contents(b.packets@), b.segment_size as nat)
        &&& b.packets@[0]@.len() == b.segment_size
    }
}

/// Move what waits to the end of `bursts`.
fn push_burst(batch: &mut SendBatch, bursts: &mut Vec<Burst>)
    requires
        ready(*old(batch)),
        forall|i: int| 0 <= i < old(bursts)@.len() ==> (#[trigger] old(bursts)@[i]).wf(),
    ensures
        final(batch)@ == BatchView::nothing(),
        final(batch).packets@.len() == 0,
        ready(*final(batch)),
        forall|i: int| 0 <= i < final(bursts)@.len() ==> (#[trigger] final(bursts)@[i]).wf(),
        burst_views(final(bursts)@) == burst_views(old(bursts)@) + old(batch)@.as_bursts(),
{
    match batch.take() {
        Some(b) => {
            assert(b.wf());
            assert(b@ =~= old(batch)@);
            bursts.push(b);
            assert(burst_views(bursts@) =~= burst_views(old(bursts)@) + old(batch)@.as_bursts());
        },
        None => {
            assert(burst_views(bursts@) =~= burst_views(old(bursts)@) + old(batch)@.as_bursts());
        },
    }
    assert(batch@ =~= BatchView::nothing());
}

/// How to send a burst.
#[derive(Debug)]
pub enum SendPlan {
    /// One segmented send of all packets joined.
    Segmented { payload: Vec<u8>, segment_size: usize },
    /// One plain send for each packet.
    Plain(Vec<Vec<u8>>),
}

/// Whether a burst goes out in one segmented send: where the system has it, and
/// there is more than one packet.
pub open spec fn uses_segments(packets: nat, linux: bool) -> bool {
    linux && packets > 1
}

/// Plan the sending of a burst. `linux` says whether the system can segment.
pub fn send_packets(burst: &Burst, linux: bool) -> (r: SendPlan)
    ensures
        match r {
            SendPlan::Segmented { payload, segment_size } => {
                &&& uses_segments(burst.packets@.len(), linux)
                &&& payload@ == joined(burst@.packets)
                &&& segment_size == burst.segment_size
            },
            SendPlan::Plain(packets) => {
                &&& !uses_segments(burst.packets@.len(), linux)
                &&& contents(packets@) == burst@.packets
            },
        },
{
    if linux && burst.packets.len() > 1 {
        SendPlan::Segmented { payload: join(&burst.packets), segment_size: burst.segment_size }
    } else {
        SendPlan::Plain(plain_packets(burst))
    }
}

/// The packets of a burst for plain sends, one by one. This is also what is left
/// to do where a segmented send turns out not to be supported.
pub fn plain_packets(burst: &Burst) -> (r: Vec<Vec<u8>>)
    ensures
        contents(r@) == burst@.packets,
{
    let mut r: Vec<Vec<u8>> = Vec::new();
    let mut i: usize = 0;
    while i < burst.packets.len()
        invariant
            i <= burst.packets@.len(),
            r@.len() == i,
            forall|k: int| 0 <= k < i ==> (#[trigger] r@[k])@ == burst.packets@[k]@,
        decreases burst.packets@.len() - i,
    {
        let p = copy_of(&burst.packets[i], 0, burst.packets[i].len());
        assert(p@ =~= burst.packets@[i as int]@);
        r.push(p);
        i = i + 1;
    }
    assert(contents(r@) =~= burst@.packets);
    r
}

fn join(packets: &[Vec<u8>]) -> (r: Vec<u8>)
    ensures
        r@ == joined(contents(packets@)),
{
    let ghost all = contents(packets@);
    let mut r: Vec<u8> = Vec::new();
    let mut i: usize = 0;
    assert(all.skip(0) =~= all);
    assert(r@ + joined(all) =~= joined(all));
    while i < packets.len()
        invariant
            i <= packets@.len(),
            all == contents(packets@),
            r@ + joined(all.skip(i as int)) == joined(all),
        decreases packets@.len() - i,
    {
        let ghost before = r@;
        push_all(&mut r, &packets[i]);
        proof {
            let rest = all.skip(i as int);
            assert(rest[0] == packets@[i as int]@);
            assert(rest.skip(1) =~= all.skip(i + 1));
            assert(before + (rest[0] + joined(rest.skip(1))) =~= (before + rest[0]) + joined(
                rest.skip(1),
            ));
        }
        i = i + 1;
    }
    assert(r@ + joined(all.skip(i as int)) =~= r@);
    r
}

/// What a send gave.
#[derive(Clone, Copy, Debug, PartialEq, Eq, Structural)]
pub enum SendOutcome {
    Sent,
    /// The socket is not writable now.
    WouldBlock,
    /// Segmented sends are not supported.
    SegmentsUnsupported,
    Failed,
}

/// What to do after a send.
#[derive(Clone, Copy, Debug, PartialEq, Eq, Structural)]
pub enum SendStep {
    Done,
    /// Wait until the socket is writable and send again.
    Retry,
    /// Send the packets one by one.
    FallBack,
    Fail,
}

/// What to do after a send: only a segmented one can fall back to plain ones.
pub fn after_send(segmented: bool, outcome: SendOutcome) -> (r: SendStep)
    ensures
        r == match outcome {
            SendOutcome::Sent => SendStep::Done,
            SendOutcome::WouldBlock => SendStep::Retry,
            SendOutcome::SegmentsUnsupported => if segmented {
                SendStep::FallBack
            } else {
                SendStep::Fail
            },
            SendOutcome::Failed => SendStep::Fail,
        },
{
    match outcome {
        SendOutcome::Sent => SendStep::Done,
        SendOutcome::WouldBlock => SendStep::Retry,
        SendOutcome::SegmentsUnsupported => {
            if segmented {
                SendStep::FallBack
            } else {
                SendStep::Fail
            }
        },
        SendOutcome::Failed => SendStep::Fail,
    }
}

/// What a read gave.
#[derive(Clone, Copy, Debug, PartialEq, Eq, Structural)]
pub enum RecvOutcome {
    Received,
    /// Nothing is there to read now.
    WouldBlock,
    Interrupted,
    Failed,
}

/// What to do after a read.
#[derive(Clone, Copy, Debug, PartialEq, Eq, Structural)]
pub enum RecvStep {
    /// Read again.
    Again,
    /// Wait until the socket is readable.
    AwaitReadable,
    /// Stop reading.
    Stop,
}

/// The reading of one socket: at most [`RECV_BATCH`] reads for each wait.
#[derive(Clone, Copy, Debug, PartialEq, Eq, Structural)]
pub struct RecvLoop {
    /// Reads since the last wait.
    pub reads: usize,
}

impl RecvLoop {
    /// The socket has just become readable.
    pub fn new() -> (r: Self)
        ensures
            r.reads == 0,
    {
        RecvLoop { reads: 0 }
    }

    /// What to do after a read. What was received is forwarded in any case.
    pub fn after_read(&mut self, outcome: RecvOutcome) -> (r: RecvStep)
        requires
            old(self).reads < RECV_BATCH,
        ensures
            r == match outcome {
                RecvOutcome::Failed => RecvStep::Stop,
                RecvOutcome::WouldBlock => RecvStep::AwaitReadable,
                RecvOutcome::Received | RecvOutcome::Interrupted => if old(self).reads + 1
                    == RECV_BATCH {
                    RecvStep::AwaitReadable
                } else {
                    RecvStep::Again
                },
            },
            final(self).reads == if r == RecvStep::Again {
                old(self).reads + 1
            } else {
                0
            },
            final(self).reads < RECV_BATCH,
    {
        let step = match outcome {
            RecvOutcome::Failed => RecvStep::Stop,
            RecvOutcome::WouldBlock => RecvStep::AwaitReadable,
            RecvOutcome::Received | RecvOutcome::Interrupted => {
                if self.reads + 1 == RECV_BATCH {
                    RecvStep::AwaitReadable
                } else {
                    RecvStep::Again
                }
            },
        };
        self.reads = if step == RecvStep::Again {
            self.reads + 1
        } else {
            0
        };
        step
    }
}

/// The capacity of the buffer for a read: room for a batch of segments, up to the
/// length limit of a datagram, but at least for one segment.
pub open spec fn spec_recv_capacity(segment_size: usize) -> int {
    let batch = segment_size * RECV_BATCH;
    let limited = if batch > 0xffff {
        0xffff
    } else {
        batch
    };
    if limited > segment_size {
        limited
    } else {
        segment_size as int
    }
}

/// The capacity of the buffer for a read of packets of up to `segment_size` bytes.
pub fn recv_capacity(segment_size: usize) -> (r: usize)
    ensures
        r == spec_recv_capacity(segment_size),
{
    let limited: usize = if segment_size > 0xffff / RECV_BATCH {
        0xffff
    } else {
        segment_size * RECV_BATCH
    };
    if limited > segment_size {
        limited
    } else {
        segment_size
    }
}

/// Consecutive pieces of `size` bytes; the last one is what is left.
pub open spec fn pieces(s: Seq<u8>, size: nat) -> Seq<Seq<u8>>
    decreases s.len(),
{
    if size == 0 || s.len() <= size {
        seq![s]
    } else {
        seq![s.take(size as int)] + pieces(s.skip(size as int), size)
    }
}

/// The packets in what was read: the pieces of the segment size that the system
/// merged packets with, or all of it as one packet.
pub open spec fn spec_split(s: Seq<u8>, merged_size: Option<usize>) -> Seq<Seq<u8>> {
    match merged_size {
        Some(size) => pieces(s, size as nat),
        None => seq![s],
    }
}

/// Split what was read into the packets that the system merged.
pub fn split_segments(buf: &[u8], merged_size: Option<usize>) -> (r: Vec<Vec<u8>>)
    ensures
        contents(r@) == spec_split(buf@, merged_size),
{
    let mut r: Vec<Vec<u8>> = Vec::new();
    let n: usize = buf.len();
    let mut from: usize = 0;
    if let Some(size) = merged_size {
        if size > 0 {
            assert(buf@.skip(0) =~= buf@);
            assert(contents(r@) + pieces(buf@, size as nat) =~= pieces(buf@, size as nat));
            while n - from > size
                invariant
                    from <= n == buf@.len(),
                    size > 0,
                    contents(r@) + pieces(buf@.skip(from as int), size as nat) == pieces(
                        buf@,
                        size as nat,
                    ),
                decreases n - from,
            {
                let ghost before = contents(r@);
                let ghost rest = buf@.skip(from as int);
                let piece = copy_of(buf, from, from + size);
                proof {
                    assert(piece@ =~= rest.take(size as int));
                    assert(rest.skip(size as int) =~= buf@.skip(from + size));
                }
                let ghost one = piece@;
                r.push(piece);
                proof {
                    let tail = pieces(buf@.skip(from + size), size as nat);
                    assert(contents(r@) =~= before.push(one));
                    assert(contents(r@) + tail =~= before + (seq![one] + tail));
                }
                from = from + size;
            }
        }
    }
    let ghost before = contents(r@);
    let last = copy_of(buf, from, n);
    proof {
        assert(last@ =~= buf@.skip(from as int));
        assert(buf@.skip(0) =~= buf@);
    }
    let ghost one = last@;
    r.push(last);
    proof {
        assert(contents(r@) =~= before + seq![one]);
        assert(contents(r@) =~= spec_split(buf@, merged_size));
    }
    r
}

/// Splitting the joined packets of a segmented send by the segment size gives the
/// packets back.
pub proof fn lemma_split_undoes_join(packets: Seq<Seq<u8>>, size: nat)
    requires
        segmentable(packets, size),
        packets.last().len() > 0,
    ensures
        pieces(joined(packets), size) == packets,
    decreases packets.len(),
{
    let rest = packets.skip(1);
    if packets.len() == 1 {
        assert(joined(rest) =~= Seq::empty());
        assert(joined(packets) =~= packets[0]);
        assert(packets =~= seq![packets[0]]);
    } else {
        assert(packets[0].len() == size);
        assert(rest.last() == packets.last());
        assert forall|i: int| 0 <= i < rest.len() - 1 implies (#[trigger] rest[i]).len()
            == size by {
            assert(rest[i] == packets[i + 1]);
        }
        lemma_split_undoes_join(rest, size);
        lemma_joined_not_empty(rest);
        let s = joined(packets);
        assert(s.take(size as int) =~= packets[0]);
        assert(s.skip(size as int) =~= joined(rest));
        assert(packets =~= seq![packets[0]] + rest);
    }
}

proof fn lemma_joined_not_empty(packets: Seq<Seq<u8>>)
    requires
        packets.len() > 0,
        packets.last().len() > 0,
    ensures
        joined(packets).len() > 0,
    decreases packets.len(),
{
    if packets.len() > 1 {
        assert(packets.skip(1).last() == packets.last());
        lemma_joined_not_empty(packets.skip(1));
    }
}

/// Packets with their destination.
pub open spec fn addressed(b: BatchView) -> Seq<(SocketAddr, Seq<u8>)> {
    match b.to {
        Some(to) => b.packets.map_values(|p: Seq<u8>| (to, p)),
        None => Seq::empty(),
    }
}

/// The packets of some bursts, with their destinations.
pub open spec fn all_addressed(s: Seq<BatchView>) -> Seq<(SocketAddr, Seq<u8>)>
    decreases s.len(),
{
    if s.len() == 0 {
        Seq::empty()
    } else {
        all_addressed(s.drop_last()) + addressed(s.last())
    }
}

/// A flush loses no packet, sends none twice and keeps their order: the bursts of
/// a step and what waits afterwards hold what waited before and the packet.
pub proof fn lemma_flush_keeps_order(s: FlushState, packet: Seq<u8>, to: SocketAddr)
    requires
        s.wf(),
    ensures
        s.after(packet, to).wf(),
        all_addressed(s.bursts(packet, to)) + addressed(s.after(packet, to).batch) == addressed(
            s.batch,
        ).push((to, packet)),
{
    let b = s.batch;
    let l = s.loaded(packet, to);
    let before = addressed(b);
    let whole = before.push((to, packet));
    assert(all_addressed(Seq::<BatchView>::empty()) =~= Seq::empty());
    assert(addressed(BatchView::nothing()) =~= Seq::empty());
    if b.takes(packet, to) {
        assert(addressed(l) =~= whole);
        let one = l.as_bursts();
        assert(Seq::<BatchView>::empty() + one =~= one);
        assert(one.drop_last() =~= Seq::empty());
        assert(all_addressed(one) =~= addressed(l));
    } else {
        assert(addressed(l) =~= seq![(to, packet)]);
        let first = b.as_bursts();
        if b.packets.len() > 0 {
            assert(first.drop_last() =~= Seq::empty());
            assert(all_addressed(first) =~= before);
        } else {
            assert(before =~= Seq::empty());
        }
        let both = first + l.as_bursts();
        assert(both.drop_last() =~= first);
        assert(all_addressed(both) =~= all_addressed(first) + addressed(l));
    }
    assert(all_addressed(s.bursts(packet, to)) + addressed(s.after(packet, to).batch) =~= whole);
}

/// Packets are joined one behind the other.
pub proof fn lemma_joined(a: Seq<Seq<u8>>, b: Seq<Seq<u8>>, p: Seq<u8>)
    ensures
        joined(a + b) == joined(a) + joined(b),
        joined(seq![p]) == p,
        joined(Seq::empty()) == Seq::<u8>::empty(),
    decreases a.len(),
{
    assert(seq![p].skip(1) =~= Seq::empty());
    assert(joined(seq![p].skip(1)) =~= Seq::empty());
    assert(joined(seq![p]) =~= p);
    if a.len() == 0 {
        assert(a + b =~= b);
        assert(joined(a) + joined(b) =~= joined(b));
    } else {
        lemma_joined(a.skip(1), b, p);
        assert((a + b).skip(1) =~= a.skip(1) + b);
        assert((a + b)[0] == a[0]);
        assert(joined(a + b) =~= joined(a) + joined(b));
    }
}

/// What was read is split without losing a byte: into packets of the segment size, the
/// last of which may be shorter. Without a segment size it is one packet.
pub proof fn lemma_split(s: Seq<u8>, size: usize)
    ensures
        spec_split(s, None) == seq![s],
        spec_split(s, Some(0)) == seq![s],
        size > 0 ==> {
            let p = spec_split(s, Some(size));
            &&& joined(p) == s
            &&& p.len() > 0
            &&& forall|i: int| 0 <= i < p.len() - 1 ==> (#[trigger] p[i]).len() == size
            &&& p.last().len() <= size
            &&& s.len() > 0 ==> p.last().len() > 0
        },
{
    if size > 0 {
        lemma_pieces(s, size as nat);
    }
}

proof fn lemma_pieces(s: Seq<u8>, size: nat)
    requires
        size > 0,
    ensures
        ({
            let p = pieces(s, size);
            &&& joined(p) == s
            &&& p.len() > 0
            &&& forall|i: int| 0 <= i < p.len() - 1 ==> (#[trigger] p[i]).len() == size
            &&& p.last().len() <= size
            &&& s.len() > 0 ==> p.last().len() > 0
        }),
    decreases s.len(),
{
    let none = Seq::<Seq<u8>>::empty();
    if s.len() <= size {
        lemma_joined(none, none, s);
    } else {
        let first = s.take(size as int);
        let rest = s.skip(size as int);
        lemma_pieces(rest, size);
        let q = pieces(rest, size);
        let p = pieces(s, size);
        lemma_joined(seq![first], q, first);
        assert(first + rest =~= s);
        assert(p.last() == q.last());
        assert forall|i: int| 0 <= i < p.len() - 1 implies (#[trigger] p[i]).len() == size by {
            if i > 0 {
                assert(p[i] == q[i - 1]);
            }
        }
    }
}

/// A packet of the size of those that wait, for the same destination, joins them, and
/// nothing is sent before the round is complete.
pub proof fn lemma_full_packet_waits(s: FlushState, packet: Seq<u8>, to: SocketAddr)
    requires
        s.wf(),
        s.batch.packets.len() > 0,
        s.batch.to == Some(to),
        packet.len() == s.batch.segment_size,
        s.round + 1 < 32,
    ensures
        s.bursts(packet, to).len() == 0,
        s.after(packet, to).batch.packets == s.batch.packets.push(packet),
        s.after(packet, to).batch.to == Some(to),
        s.after(packet, to).batch.segment_size == s.batch.segment_size,
        s.after(packet, to).round == s.round + 1,
{
}

/// A shorter packet for the same destination joins those that wait and goes out with them
/// at once, in one burst.
pub proof fn lemma_short_packet_ends_burst(s: FlushState, packet: Seq<u8>, to: SocketAddr)
    requires
        s.wf(),
        s.batch.packets.len() > 0,
        s.batch.to == Some(to),
        packet.len() < s.batch.segment_size,
    ensures
        s.bursts(packet, to).len() == 1,
        s.bursts(packet, to)[0].packets == s.batch.packets.push(packet),
        s.bursts(packet, to)[0].to == Some(to),
        s.bursts(packet, to)[0].segment_size == s.batch.segment_size,
        s.after(packet, to).batch.packets.len() == 0,
{
}

/// A packet for another destination, or a longer one, sends off those that wait, and waits
/// itself unless it completes the round; so does a packet that finds none waiting.
pub proof fn lemma_other_packet_starts_anew(s: FlushState, packet: Seq<u8>, to: SocketAddr)
    requires
        s.wf(),
        s.batch.to != Some(to) || packet.len() > s.batch.segment_size,
        s.round + 1 < 32,
    ensures
        s.batch.packets.len() == 0 ==> s.bursts(packet, to).len() == 0,
        s.batch.packets.len() > 0 ==> s.bursts(packet, to) == seq![s.batch],
        s.after(packet, to).batch.packets == seq![packet],
        s.after(packet, to).batch.to == Some(to),
        s.after(packet, to).batch.segment_size == packet.len(),
        s.after(packet, to).round == s.round + 1,
{
}

/// With the 32nd packet of a round everything goes out: in one burst if the packet can join
/// those that wait, and otherwise in one for these and one for the packet.
pub proof fn lemma_round_complete(s: FlushState, packet: Seq<u8>, to: SocketAddr)
    requires
        s.wf(),
        s.round + 1 == 32,
    ensures
        s.after(packet, to).batch.packets.len() == 0,
        s.after(packet, to).round == 0,
        ({
            let r = s.bursts(packet, to);
            if s.batch.packets.len() > 0 && s.batch.to == Some(to) && packet.len()
                <= s.batch.segment_size {
                &&& r.len() == 1
                &&& r[0].packets == s.batch.packets.push(packet)
                &&& r[0].to == Some(to)
                &&& r[0].segment_size == s.batch.segment_size
            } else if s.batch.packets.len() > 0 {
                &&& r.len() == 2
                &&& r[0] == s.batch
                &&& r[1].packets == seq![packet]
                &&& r[1].to == Some(to)
                &&& r[1].segment_size == packet.len()
            } else {
                &&& r.len() == 1
                &&& r[0].packets == seq![packet]
                &&& r[0].to == Some(to)
                &&& r[0].segment_size == packet.len()
            }
        }),
{
}

/// What waits is sent as one burst, if anything waits.
pub proof fn lemma_one_burst(b: BatchView)
    ensures
        b.packets.len() > 0 ==> b.as_bursts() == seq![b],
        b.packets.len() == 0 ==> b.as_bursts().len() == 0,
{
}

/// Two or more packets go out in one segmented send where the system has it, and any other
/// burst packet by packet. A read has room for 32 packets, up to 65535 bytes, and always
/// for one.
pub proof fn lemma_sizes(packets: nat, linux: bool, segment_size: usize)
    ensures
        uses_segments(packets, linux) <==> linux && packets >= 2,
        segment_size <= 2047 ==> spec_recv_capacity(segment_size) == 32 * segment_size,
        2047 < segment_size <= 65535 ==> spec_recv_capacity(segment_size) == 65535,
        65535 < segment_size ==> spec_recv_capacity(segment_size) == segment_size,
{
}

/// The packets of a batch keep their order and go to its destination.
pub proof fn lemma_addressed(b: BatchView, to: SocketAddr, i: int)
    requires
        b.to == Some(to),
        0 <= i < b.packets.len(),
    ensures
        addressed(b).len() == b.packets.len(),
        addressed(b)[i] == (to, b.packets[i]),
{
}

/// Packets and bursts are taken one by one, in their order.
pub proof fn lemma_contents(s: Seq<Vec<u8>>, b: Seq<Burst>, i: int)
    ensures
        contents(s).len() == s.len(),
        0 <= i < s.len() ==> contents(s)[i] == s[i]@,
        burst_views(b).len() == b.len(),
        0 <= i < b.len() ==> {
            &&& burst_views(b)[i].to == Some(b[i].to)
            &&& burst_views(b)[i].segment_size == b[i].segment_size
            &&& burst_views(b)[i].packets == contents(b[i].packets@)
        },
{
}

} // verus!
