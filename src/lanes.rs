//! Priority lanes of outgoing packets: first in, first out within a lane,
//! and a lower lane always before a higher one.
use vstd::prelude::*;
use std::collections::VecDeque;
use crate::frame::{Frame, FrameView};
use crate::outgoing::{OutgoingPacket, OutgoingView};

verus! {

/// The number of lanes.
pub const LANE_COUNT: usize = 255;

/// The lane that [`crate::connection::Connection::send`] uses.
pub const DEFAULT_LANE: usize = 16;

/// The outgoing packets of a connection, one queue per priority.
#[derive(Debug)]
pub struct Lanes {
    queues: Vec<VecDeque<OutgoingPacket>>,
}

/// The lowest lane at or above `from` that holds a packet, or the number
/// of lanes if there is none.
pub open spec fn first_busy(l: Seq<Seq<OutgoingView>>, from: int) -> int
    decreases l.len() - from,
{
    if from >= l.len() {
        l.len() as int
    } else if l[from].len() > 0 {
        from
    } else {
        first_busy(l, from + 1)
    }
}

/// Every lane is there, and each packet in it is well formed and has
/// frames left to produce.
pub open spec fn lanes_wf(l: Seq<Seq<OutgoingView>>) -> bool {
    &&& l.len() == LANE_COUNT
    &&& forall|i: int, k: int|
        #![trigger l[i][k]]
        0 <= i < l.len() && 0 <= k < l[i].len() ==> l[i][k].wf() && !l[i][k].done()
}

/// One poll of the lanes with chunk size `chunk`: the lanes after it and
/// the frame it produces, if any packet is waiting.
///
/// The head packet of the lowest busy lane produces its next frame; once
/// it has produced its last one it leaves the lane.
pub open spec fn poll_step(l: Seq<Seq<OutgoingView>>, chunk: nat) -> (Seq<Seq<OutgoingView>>, Option<FrameView>) {
    let i = first_busy(l, 0);
    if i >= l.len() {
        (l, None)
    } else {
        let (q, f) = l[i][0].step(chunk);
        let lane = if q.done() {
            l[i].skip(1)
        } else {
            l[i].update(0, q)
        };
        (l.update(i, lane), Some(f->Ok_0))
    }
}

pub proof fn lemma_first_busy(l: Seq<Seq<OutgoingView>>, from: int)
    requires
        0 <= from <= l.len(),
    ensures
        from <= first_busy(l, from) <= l.len(),
        forall|j: int| from <= j < first_busy(l, from) ==> #[trigger] l[j].len() == 0,
        first_busy(l, from) < l.len() ==> l[first_busy(l, from)].len() > 0,
    decreases l.len() - from,
{
    if from < l.len() && l[from].len() == 0 {
        lemma_first_busy(l, from + 1);
    }
}

impl View for Lanes {
    type V = Seq<Seq<OutgoingView>>;

    closed spec fn view(&self) -> Seq<Seq<OutgoingView>> {
        self.queues@.map_values(|q: VecDeque<OutgoingPacket>| q@.map_values(|p: OutgoingPacket| p@))
    }
}

impl Lanes {
    pub open spec fn wf(&self) -> bool {
        lanes_wf(self@)
    }

    /// All lanes, all empty.
    pub fn new() -> (r: Lanes)
        ensures
            r.wf(),
            r@ =~= Seq::new(LANE_COUNT as nat, |i: int| Seq::<OutgoingView>::empty()),
    {
        let mut queues: Vec<VecDeque<OutgoingPacket>> = Vec::new();
        let mut i: usize = 0;
        while i < LANE_COUNT
            invariant
                i <= LANE_COUNT,
                queues@.len() == i,
                forall|j: int| 0 <= j < i ==> (#[trigger] queues@[j])@.len() == 0,
            decreases LANE_COUNT - i,
        {
            queues.push(VecDeque::new());
            i += 1;
        }
        let r = Lanes { queues };
        proof {
            assert forall|j: int| 0 <= j < LANE_COUNT implies #[trigger] r@[j] =~= Seq::<OutgoingView>::empty() by {
                assert(r.queues@[j]@.len() == 0);
            }
        }
        r
    }

    /// Appends a packet to the back of a lane.
    pub fn push(&mut self, lane: usize, packet: OutgoingPacket)
        requires
            old(self).wf(),
            lane < LANE_COUNT,
            packet.wf(),
            !packet@.done(),
        ensures
            final(self).wf(),
            final(self)@ == old(self)@.update(lane as int, old(self)@[lane as int].push(packet@)),
    {
        let ghost l = self@;
        let ghost pv = packet@;
        self.queues[lane].push_back(packet);
        proof {
            assert(self@[lane as int] =~= l[lane as int].push(pv));
            assert(self@ =~= l.update(lane as int, l[lane as int].push(pv)));
        }
    }

    /// Whether no lane holds a packet.
    pub fn is_idle(&self) -> (r: bool)
        requires
            self.wf(),
        ensures
            r == (first_busy(self@, 0) >= LANE_COUNT),
    {
        self.first_busy() >= LANE_COUNT
    }

    fn first_busy(&self) -> (r: usize)
        requires
            self.wf(),
        ensures
            r == first_busy(self@, 0),
    {
        let ghost l = self@;
        let mut i: usize = 0;
        while i < LANE_COUNT && self.queues[i].len() == 0
            invariant
                self.wf(),
                l == self@,
                i <= LANE_COUNT,
                first_busy(l, 0) == first_busy(l, i as int),
            decreases LANE_COUNT - i,
        {
            assert(l[i as int].len() == 0);
            i += 1;
        }
        i
    }

    /// Produces the next frame to write, or `None` if no packet waits; see
    /// [`poll_step`].
    pub fn poll(&mut self, max_chunk: usize) -> (r: Option<Frame>)
        requires
            old(self).wf(),
            max_chunk > 0,
        ensures
            final(self).wf(),
            poll_step(old(self)@, max_chunk as nat) == (final(self)@, match r {
                Some(f) => Some(f@),
                None => None::<FrameView>,
            }),
    {
        let ghost l = self@;
        let i = self.first_busy();
        if i >= LANE_COUNT {
            return None;
        }
        proof {
            lemma_first_busy(l, 0);
        }
        let head = self.queues[i].pop_front();
        match head {
            None => None,
            Some(p) => {
                let mut p = p;
                assert(p@ == l[i as int][0]);
                let r = p.next_frame(max_chunk);
                match r {
                    Ok(f) => {
                        if !p.is_done() {
                            self.queues[i].push_front(p);
                        }
                        proof {
                            let lane = poll_step(l, max_chunk as nat).0[i as int];
                            assert(self@[i as int] =~= lane);
                            assert(self@ =~= poll_step(l, max_chunk as nat).0);
                        }
                        Some(f)
                    },
                    Err(_) => None,
                }
            },
        }
    }
}

} // verus!
