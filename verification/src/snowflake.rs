//! Snowflake identifiers: 64-bit ids made of a millisecond timestamp (relative to a chosen
//! epoch), a node id and a per-millisecond sequence number, so that ids from one generator
//! are unique and grow with time.

use vstd::prelude::*;

verus! {

/// Bits for the node id.
pub const NODE_ID_BITS: u64 = 10;

/// Bits for the sequence number.
pub const SEQUENCE_BITS: u64 = 12;

/// The largest node id (1023).
pub const MAX_NODE_ID: u64 = 1023;

/// The largest sequence number within one millisecond (4095).
pub const MAX_SEQUENCE: u64 = 4095;

/// A source of unique identifiers.
pub trait IdGenerator {
    type Id;

    /// A fresh identifier.
    fn generate(&self) -> Self::Id;
}

/// The id for a timestamp offset, node and sequence number: the offset in the high 42
/// bits, then 10 bits of node id, then 12 bits of sequence.
pub open spec fn compose(offset: u64, node_id: u64, sequence: u64) -> u64 {
    (offset << 22u64) | (node_id << 12u64) | sequence
}

/// The id as a number, when the offset fits in its 42 bits.
pub open spec fn id_value(offset: int, node_id: int, sequence: int) -> int {
    offset * 4194304 + node_id * 4096 + sequence
}

/// The state of a generator: the epoch, the node, and the timestamp and sequence number of
/// the last id it issued.
pub struct Snowflake {
    epoch: u64,
    node_id: u64,
    last_timestamp: u64,
    sequence: u64,
}

impl Snowflake {
    pub closed spec fn epoch(&self) -> u64 {
        self.epoch
    }

    pub closed spec fn node_id(&self) -> u64 {
        self.node_id
    }

    pub closed spec fn last_timestamp(&self) -> u64 {
        self.last_timestamp
    }

    pub closed spec fn sequence(&self) -> u64 {
        self.sequence
    }

    pub closed spec fn wf(&self) -> bool {
        self.node_id <= MAX_NODE_ID && self.sequence <= MAX_SEQUENCE
    }

    /// A generator for node `node_id` (at most 1023) counting milliseconds from `epoch`.
    pub fn new(epoch: u64, node_id: u64) -> (s: Self)
        requires
            node_id <= MAX_NODE_ID,
        ensures
            s.wf(),
            s.epoch() == epoch,
            s.node_id() == node_id,
            s.last_timestamp() == 0,
            s.sequence() == 0,
    {
        Snowflake { epoch, node_id, last_timestamp: 0, sequence: 0 }
    }

    /// The epoch, in milliseconds, that ids count from.
    pub fn epoch_millis(&self) -> (e: u64)
        ensures
            e == self.epoch(),
    {
        self.epoch
    }

    /// The next id when the clock reads `now` milliseconds, or `None` when the clock must move
    /// on first: it reads earlier than the last id's time, or this millisecond's 4096 ids are
    /// used up. Within the last id's millisecond the sequence number counts up; a later
    /// millisecond starts it again at 0.
    pub fn step(&mut self, now: u64) -> (r: Option<u64>)
        requires
            old(self).wf(),
            now >= old(self).epoch(),
        ensures
            final(self).wf(),
            final(self).epoch() == old(self).epoch(),
            final(self).node_id() == old(self).node_id(),
            now < old(self).last_timestamp() ==> r is None && *final(self) == *old(self),
            now == old(self).last_timestamp() && old(self).sequence() == MAX_SEQUENCE ==> r is None && *final(self)
                == *old(self),
            now == old(self).last_timestamp() && old(self).sequence() < MAX_SEQUENCE ==> r == Some(
                compose((now - old(self).epoch()) as u64, old(self).node_id(), (old(self).sequence() + 1) as u64),
            ) && final(self).last_timestamp() == now && final(self).sequence() == old(self).sequence() + 1,
            now > old(self).last_timestamp() ==> r == Some(compose((now - old(self).epoch()) as u64, old(self).node_id(), 0))
                && final(self).last_timestamp() == now && final(self).sequence() == 0,
            r matches Some(id) ==> (now - old(self).epoch() < 0x400_0000_0000 ==> {
                &&& id == id_value(now - old(self).epoch(), old(self).node_id() as int, final(self).sequence() as int)
                &&& old(self).last_timestamp() >= old(self).epoch() ==> id_value(
                    old(self).last_timestamp() - old(self).epoch(),
                    old(self).node_id() as int,
                    old(self).sequence() as int,
                ) < id
            }),
    {
        if now < self.last_timestamp {
            return None;
        }
        if now == self.last_timestamp {
            if self.sequence == MAX_SEQUENCE {
                return None;
            }
            self.sequence = self.sequence + 1;
        } else {
            self.sequence = 0;
        }
        self.last_timestamp = now;
        let timestamp_offset = now - self.epoch;
        proof {
            if timestamp_offset < 0x400_0000_0000 {
                lemma_compose_value(timestamp_offset, self.node_id, self.sequence);
            }
        }
        Some((timestamp_offset << 22u64) | (self.node_id << 12u64) | self.sequence)
    }
}

/// The bit layout: with an offset below `2^42`, the id is offset, node and sequence in
/// place-value order.
pub proof fn lemma_compose_value(offset: u64, node_id: u64, sequence: u64)
    requires
        offset < 0x400_0000_0000,
        node_id <= MAX_NODE_ID,
        sequence <= MAX_SEQUENCE,
    ensures
        compose(offset, node_id, sequence) == id_value(offset as int, node_id as int, sequence as int),
{
    assert((offset << 22u64) | (node_id << 12u64) | sequence == offset * 4194304 + node_id * 4096 + sequence)
        by (bit_vector)
        requires
            offset < 0x400_0000_0000,
            node_id <= 1023,
            sequence <= 4095,
    ;
}

/// Ids of one node grow with the (timestamp, sequence) pair: an id issued later, at a later
/// millisecond or with a larger sequence number in the same millisecond, is larger.
pub proof fn lemma_later_id_larger(node_id: u64, o1: u64, s1: u64, o2: u64, s2: u64)
    requires
        node_id <= MAX_NODE_ID,
        s1 <= MAX_SEQUENCE,
        s2 <= MAX_SEQUENCE,
        o1 < 0x400_0000_0000,
        o2 < 0x400_0000_0000,
        o1 < o2 || (o1 == o2 && s1 < s2),
    ensures
        compose(o1, node_id, s1) < compose(o2, node_id, s2),
{
    lemma_compose_value(o1, node_id, s1);
    lemma_compose_value(o2, node_id, s2);
    if o1 < o2 {
        assert(o1 * 4194304 + 4194304 <= o2 * 4194304) by (nonlinear_arith)
            requires
                o1 < o2,
        ;
    }
}

/// The id keeps the node id in bits 12 to 21.
pub proof fn lemma_node_field(offset: u64, node_id: u64, sequence: u64)
    requires
        node_id <= MAX_NODE_ID,
        sequence <= MAX_SEQUENCE,
    ensures
        (compose(offset, node_id, sequence) >> 12u64) & 1023u64 == node_id,
        compose(offset, node_id, sequence) & 4095u64 == sequence,
{
    assert(((offset << 22u64) | (node_id << 12u64) | sequence) >> 12u64 & 1023u64 == node_id) by (bit_vector)
        requires
            node_id <= 1023,
            sequence <= 4095,
    ;
    assert(((offset << 22u64) | (node_id << 12u64) | sequence) & 4095u64 == sequence) by (bit_vector)
        requires
            node_id <= 1023,
            sequence <= 4095,
    ;
}

} // verus!
