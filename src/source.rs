//! Sources of Velodyne points.

use vstd::prelude::*;

use crate::error::Error;
use crate::point::Point;
use crate::vlp_16::{
    data_timestamp_offset, decodes, has_points, is_decode_error, is_decoded, is_dual_data_payload, packet_point,
    Packet, ReturnMode, DATA_BLOCK_LEN, NUM_DATA_BLOCKS, PACKET_HEADER_LEN, POINTS_PER_PACKET,
};

verus! {

/// The points of `p` in firing order; none for a position packet.
pub open spec fn points_of(p: Packet) -> Seq<Point> {
    match p {
        Packet::Data { data_blocks, timestamp, return_mode, .. } => Seq::new(
            POINTS_PER_PACKET as nat,
            |i: int| packet_point(data_blocks@, timestamp, return_mode, i),
        ),
        Packet::Position { .. } => Seq::empty(),
    }
}

/// The points of the packets, packet after packet.
pub open spec fn all_points(packets: Seq<Packet>) -> Seq<Point>
    decreases packets.len(),
{
    if packets.len() == 0 {
        Seq::empty()
    } else {
        all_points(packets.drop_last()) + points_of(packets.last())
    }
}

/// Whether the points of every packet can be enumerated.
pub open spec fn all_have_points(packets: Seq<Packet>) -> bool {
    forall|i: int| 0 <= i < packets.len() ==> (#[trigger] packets[i] is Data ==> has_points(packets[i]))
}

/// A source of Velodyne data: the packets that a byte-stream source delivered, in order.
#[derive(Clone, Debug)]
pub struct Source {
    packets: Vec<Packet>,
}

impl Source {
    /// The packets held, in the order they came.
    pub closed spec fn packets(&self) -> Seq<Packet> {
        self.packets@
    }

    /// A source that holds no packet.
    pub fn new() -> (r: Source)
        ensures
            r.packets() == Seq::<Packet>::empty(),
    {
        Source { packets: Vec::new() }
    }

    /// Decodes the bytes of a packet and appends it; on an error the source is left as it was.
    ///
    /// A data packet in dual-return mode is refused with `InvalidReturnMode`: its points
    /// cannot be enumerated.
    pub fn push(&mut self, bytes: &[u8]) -> (r: Result<(), Error>)
        requires
            all_have_points(old(self).packets()),
        ensures
            all_have_points(final(self).packets()),
            r is Ok <==> decodes(bytes@) && !is_dual_data_payload(bytes@),
            r is Ok ==> exists|p: Packet| is_decoded(p, bytes@) && final(self).packets() == old(self).packets().push(p),
            r is Err ==> final(self).packets() == old(self).packets(),
            r matches Err(e) ==> (if decodes(bytes@) {
                e == Error::InvalidReturnMode(bytes@[data_timestamp_offset() + 4])
            } else {
                is_decode_error(e, bytes@)
            }),
    {
        let packet = match Packet::new(bytes) {
            Ok(p) => p,
            Err(e) => {
                return Err(e);
            },
        };
        match packet.return_mode() {
            Some(ReturnMode::DualReturn) => {
                return Err(Error::InvalidReturnMode(bytes[PACKET_HEADER_LEN + DATA_BLOCK_LEN * NUM_DATA_BLOCKS + 4]));
            },
            _ => {},
        }
        let ghost decoded = packet;
        self.packets.push(packet);
        assert(is_decoded(decoded, bytes@));
        assert(self.packets@ == old(self).packets@.push(decoded));
        assert(all_have_points(self.packets@)) by {
            assert forall|i: int| 0 <= i < self.packets@.len() && #[trigger] self.packets@[i] is Data implies has_points(
                self.packets@[i],
            ) by {
                if i < old(self).packets@.len() {
                    assert(self.packets@[i] == old(self).packets@[i]);
                }
            }
        }
        Ok(())
    }

    /// The points of all packets held, packet after packet, each in firing order; the source
    /// is left empty.
    pub fn points(&mut self) -> (r: Points)
        requires
            all_have_points(old(self).packets()),
        ensures
            r.wf(),
            r.remaining() == all_points(old(self).packets()),
            final(self).packets() == Seq::<Packet>::empty(),
    {
        let mut packets: Vec<Packet> = Vec::new();
        core::mem::swap(&mut packets, &mut self.packets);
        let mut points: Vec<Point> = Vec::new();
        let mut k: usize = 0;
        while k < packets.len()
            invariant
                all_have_points(packets@),
                k <= packets@.len(),
                points@ == all_points(packets@.subrange(0, k as int)),
            decreases packets@.len() - k,
        {
            assert(packets@.subrange(0, k + 1).drop_last() =~= packets@.subrange(0, k as int));
            let ghost p = packets@[k as int];
            match packets[k].points() {
                Some(mut v) => {
                    assert(v@ =~= points_of(p));
                    points.append(&mut v);
                },
                None => {
                    assert(points_of(p) =~= Seq::<Point>::empty());
                    assert(points@ + points_of(p) =~= points@);
                },
            }
            k += 1;
        }
        assert(packets@.subrange(0, packets@.len() as int) =~= packets@);
        let r = Points { points, next: 0 };
        assert(r.remaining() =~= r.points@);
        r
    }
}

/// The points of a source, handed out one at a time.
#[derive(Clone, Debug)]
pub struct Points {
    points: Vec<Point>,
    next: usize,
}

impl Points {
    /// Whether the position of the next point lies within the points.
    pub closed spec fn wf(&self) -> bool {
        self.next <= self.points@.len()
    }

    /// The points not handed out yet.
    pub closed spec fn remaining(&self) -> Seq<Point> {
        self.points@.subrange(self.next as int, self.points@.len() as int)
    }

    /// The next point, if any is left.
    pub fn next(&mut self) -> (r: Option<Point>)
        requires
            old(self).wf(),
        ensures
            final(self).wf(),
            old(self).remaining().len() == 0 ==> r is None && final(self).remaining() == old(self).remaining(),
            old(self).remaining().len() > 0 ==> r == Some(old(self).remaining()[0]) && final(self).remaining()
                == old(self).remaining().drop_first(),
    {
        if self.next < self.points.len() {
            let p = self.points[self.next];
            self.next = self.next + 1;
            assert(self.remaining() =~= old(self).remaining().drop_first());
            Some(p)
        } else {
            None
        }
    }
}

} // verus!
