//! Bookkeeping of the packet transport: INTENT packets heard twice are dropped,
//! and each agent may broadcast a bounded number of INTENTs per rate window.
//! The socket itself lives with the caller, which hands over the datagrams it
//! read.
use crate::collections::keys_of;
use crate::network::payloads::{packet_decode, Packet, PacketView};
use std::collections::HashMap;
use vstd::prelude::*;

verus! {

broadcast use vstd::std_specs::hash::group_hash_axioms;

/// INTENT broadcasts allowed per agent in one rate window (5 ticks).
pub const INTENT_RATE_LIMIT: u8 = 1u8;

/// The deduplication key of an INTENT: its sender and sequence number.
pub open spec fn intent_key(agent_id: u8, seq_no: u16) -> u32 {
    (agent_id as int * 65536 + seq_no as int) as u32
}

/// One received packet folded into the bookkeeping: an INTENT already heard is
/// dropped, a new one is remembered and kept, any other packet is kept.
pub open spec fn receive_one(seen: Set<u32>, out: Seq<PacketView>, p: PacketView) -> (
    Set<u32>,
    Seq<PacketView>,
) {
    match p {
        PacketView::Intent(i) => {
            let k = intent_key(i.agent_id, i.seq_no);
            if seen.contains(k) {
                (seen, out)
            } else {
                (seen.insert(k), out.push(p))
            }
        },
        _ => (seen, out.push(p)),
    }
}

/// A batch of datagrams, in arrival order: those that do not decode are
/// skipped, the rest go through `receive_one`. Gives the INTENT keys heard and
/// the packets kept.
pub open spec fn receive_batch(seen: Set<u32>, datagrams: Seq<Seq<u8>>) -> (
    Set<u32>,
    Seq<PacketView>,
)
    decreases datagrams.len(),
{
    if datagrams.len() == 0 {
        (seen, Seq::empty())
    } else {
        let prev = receive_batch(seen, datagrams.drop_last());
        match packet_decode(datagrams.last()) {
            Some(p) => receive_one(prev.0, prev.1, p),
            None => prev,
        }
    }
}

/// INTENT broadcasts an agent has made in the current window.
pub open spec fn sent_in_window(rates: Map<u8, u8>, agent_id: u8) -> u8 {
    if rates.dom().contains(agent_id) {
        rates[agent_id]
    } else {
        0
    }
}

/// The bytes of each datagram.
pub open spec fn datagram_bytes(datagrams: Seq<Vec<u8>>) -> Seq<Seq<u8>> {
    datagrams.map_values(|d: Vec<u8>| d@)
}

/// The packets, each by its view.
pub open spec fn packet_views(packets: Seq<Packet>) -> Seq<PacketView> {
    packets.map_values(|p: Packet| p@)
}

/// The deduplication key of a packet, for an INTENT.
pub open spec fn key_of(p: PacketView) -> u32 {
    match p {
        PacketView::Intent(i) => intent_key(i.agent_id, i.seq_no),
        _ => 0,
    }
}

/// An INTENT is delivered at most once: of the packets a batch delivers, no two
/// INTENTs share a key, none has a key heard before the batch, and every
/// delivered INTENT's key is remembered afterwards (so it is not delivered
/// again later); nothing heard is forgotten.
pub proof fn lemma_intents_delivered_once(seen: Set<u32>, datagrams: Seq<Seq<u8>>)
    ensures
        ({
            let (after, out) = receive_batch(seen, datagrams);
            &&& seen.subset_of(after)
            &&& forall|i: int|
                0 <= i < out.len() && out[i] is Intent ==> !seen.contains(#[trigger] key_of(out[i]))
                    && after.contains(key_of(out[i]))
            &&& forall|i: int, j: int|
                0 <= i < j < out.len() && out[i] is Intent && out[j] is Intent ==> #[trigger] key_of(
                    out[i],
                ) != #[trigger] key_of(out[j])
        }),
    decreases datagrams.len(),
{
    if datagrams.len() > 0 {
        lemma_intents_delivered_once(seen, datagrams.drop_last());
        let prev = receive_batch(seen, datagrams.drop_last());
        match packet_decode(datagrams.last()) {
            Some(p) => {
                let (after, out) = receive_one(prev.0, prev.1, p);
                assert forall|i: int| 0 <= i < prev.1.len() implies out[i] == prev.1[i] by {}
            },
            None => {},
        }
    }
}

/// Duplicate filter and outbound rate limiter of the transport.
pub struct TransportLayer {
    /// INTENT keys already heard.
    seen_intents: HashMap<u32, bool>,
    /// Agent → INTENT broadcasts in the current window.
    rate_limiter: HashMap<u8, u8>,
}

impl TransportLayer {
    /// The INTENT keys heard.
    pub closed spec fn seen(&self) -> Set<u32> {
        self.seen_intents@.dom()
    }

    /// Broadcasts counted per agent in the current window.
    pub closed spec fn rates(&self) -> Map<u8, u8> {
        self.rate_limiter@
    }

    /// A transport that has heard nothing and counted no broadcast.
    pub fn mock() -> (r: Self)
        ensures
            r.seen() == Set::<u32>::empty(),
            r.rates() == Map::<u8, u8>::empty(),
    {
        TransportLayer { seen_intents: HashMap::new(), rate_limiter: HashMap::new() }
    }

    /// Decodes the datagrams read in one drain of the socket, in arrival order,
    /// and drops the INTENT packets whose (agent, sequence number) was already
    /// heard.
    pub fn recv_all(&mut self, datagrams: &Vec<Vec<u8>>) -> (r: Vec<Packet>)
        ensures
            (final(self).seen(), packet_views(r@)) == receive_batch(
                old(self).seen(),
                datagram_bytes(datagrams@),
            ),
            final(self).rates() == old(self).rates(),
    {
        let ghost seen0 = self.seen();
        let ghost all = datagram_bytes(datagrams@);
        let mut out: Vec<Packet> = Vec::new();
        let mut i: usize = 0;
        proof {
            assert(all.take(0) =~= Seq::<Seq<u8>>::empty());
            assert(packet_views(out@) =~= Seq::<PacketView>::empty());
        }
        while i < datagrams.len()
            invariant
                i <= datagrams@.len(),
                all == datagram_bytes(datagrams@),
                all.len() == datagrams@.len(),
                (self.seen(), packet_views(out@)) == receive_batch(seen0, all.take(i as int)),
                self.rates() == old(self).rates(),
            decreases datagrams@.len() - i,
        {
            let ghost prev_seen = self.seen();
            let ghost prev_out = packet_views(out@);
            proof {
                assert(all.take(i + 1).drop_last() =~= all.take(i as int));
                assert(all.take(i + 1).last() == datagrams@[i as int]@);
            }
            match Packet::from_bytes(datagrams[i].as_slice()) {
                Some(pkt) => {
                    let mut keep: bool = true;
                    match &pkt {
                        Packet::Intent(intent) => {
                            let key: u32 = (intent.agent_id as u32) * 65536 + (
                            intent.seq_no as u32);
                            if self.seen_intents.contains_key(&key) {
                                keep = false;
                            } else {
                                self.seen_intents.insert(key, true);
                            }
                        },
                        _ => {},
                    }
                    if keep {
                        out.push(pkt);
                        proof {
                            assert(packet_views(out@) =~= prev_out.push(pkt@));
                        }
                    }
                },
                None => {},
            }
            i = i + 1;
        }
        proof {
            assert(all.take(datagrams@.len() as int) =~= all);
        }
        out
    }

    /// Whether the agent may broadcast an INTENT now; a granted broadcast is
    /// counted. Meant to be asked once per tick.
    pub fn can_broadcast_intent(&mut self, agent_id: u8) -> (r: bool)
        ensures
            r == (sent_in_window(old(self).rates(), agent_id) < INTENT_RATE_LIMIT),
            final(self).rates() == old(self).rates().insert(
                agent_id,
                if r {
                    (sent_in_window(old(self).rates(), agent_id) + 1) as u8
                } else {
                    sent_in_window(old(self).rates(), agent_id)
                },
            ),
            final(self).seen() == old(self).seen(),
    {
        let count: u8 = match self.rate_limiter.get(&agent_id) {
            Some(c) => *c,
            None => 0,
        };
        if count >= INTENT_RATE_LIMIT {
            self.rate_limiter.insert(agent_id, count);
            false
        } else {
            self.rate_limiter.insert(agent_id, count + 1);
            true
        }
    }

    /// Starts a new rate window: every agent's count is dropped.
    pub fn reset_rate_limits(&mut self)
        ensures
            final(self).rates() == Map::<u8, u8>::empty(),
            final(self).seen() == old(self).seen(),
    {
        self.rate_limiter.clear();
    }

    /// Bounds the duplicate filter: when it holds more than `max_entries` keys,
    /// half of them (rounded down), taken in the map's iteration order, are
    /// forgotten.
    pub fn gc_dedup(&mut self, max_entries: usize)
        ensures
            old(self).seen().len() <= max_entries ==> final(self).seen() == old(self).seen(),
            old(self).seen().len() > max_entries ==> exists|ks: Seq<u32>|
                {
                    &&& ks.no_duplicates()
                    &&& ks.to_set() == old(self).seen()
                    &&& #[trigger] final(self).seen() == old(self).seen().difference(
                        ks.take((ks.len() / 2) as int).to_set(),
                    )
                },
            final(self).rates() == old(self).rates(),
    {
        if self.seen_intents.len() > max_entries {
            let keys = keys_of(&self.seen_intents);
            let half: usize = keys.len() / 2;
            let ghost all = self.seen();
            let mut i: usize = 0;
            proof {
                assert(keys@.take(0).to_set() =~= Set::<u32>::empty());
                assert(all.difference(Set::<u32>::empty()) =~= all);
            }
            while i < half
                invariant
                    half == keys@.len() / 2,
                    i <= half,
                    keys@.to_set() == all,
                    keys@.no_duplicates(),
                    self.seen() == all.difference(keys@.take(i as int).to_set()),
                    self.rates() == old(self).rates(),
                decreases half - i,
            {
                let k: u32 = keys[i];
                self.seen_intents.remove(&k);
                proof {
                    assert(keys@.take(i + 1) =~= keys@.take(i as int).push(k));
                    keys@.take(i as int).lemma_push_to_set_commute(k);
                    assert(self.seen() =~= all.difference(keys@.take(i + 1).to_set()));
                }
                i = i + 1;
            }
            proof {
                assert(keys@.len() == all.len()) by {
                    keys@.unique_seq_to_set();
                }
            }
        }
    }
}

/// Spatial scoping: the multicast groups (last address octet) an agent in a
/// warehouse quadrant joins: its own quadrant's, the previous one's when there
/// is one (quadrants count from 1), and the next one's.
pub fn quadrant_groups(quadrant: u8) -> (r: Vec<u8>)
    requires
        quadrant < u8::MAX,
    ensures
        r@ == if quadrant > 1 {
            seq![quadrant, (quadrant - 1) as u8, (quadrant + 1) as u8]
        } else {
            seq![quadrant, (quadrant + 1) as u8]
        },
{
    let mut groups: Vec<u8> = Vec::new();
    groups.push(quadrant);
    if quadrant > 1 {
        groups.push(quadrant - 1);
    }
    groups.push(quadrant + 1);
    groups
}

/// Two INTENTs share a duplicate key only when they come from the same agent
/// with the same sequence number: an intent whose (agent, sequence) pair was not
/// heard before is never taken for a duplicate.
pub proof fn lemma_intent_key_injective(a1: u8, s1: u16, a2: u8, s2: u16)
    ensures
        intent_key(a1, s1) == intent_key(a2, s2) <==> (a1 == a2 && s1 == s2),
{
    let k1 = a1 as int * 65536 + s1 as int;
    let k2 = a2 as int * 65536 + s2 as int;
    assert(0 <= k1 < 4294967296 && 0 <= k2 < 4294967296);
    if intent_key(a1, s1) == intent_key(a2, s2) {
        assert(k1 == k2);
        vstd::arithmetic::div_mod::lemma_fundamental_div_mod_converse(k1, 65536, a1 as int, s1 as int);
        vstd::arithmetic::div_mod::lemma_fundamental_div_mod_converse(k2, 65536, a2 as int, s2 as int);
    }
}

/// Keys remembered after a batch were heard before it or belong to an INTENT
/// of the batch; the packets kept so far stay kept.
proof fn lemma_batch_keys(seen: Set<u32>, datagrams: Seq<Seq<u8>>)
    ensures
        forall|k: u32| #[trigger]
            receive_batch(seen, datagrams).0.contains(k) ==> seen.contains(k) || exists|d: int|
                0 <= d < datagrams.len() && (#[trigger] packet_decode(datagrams[d]) matches Some(
                    PacketView::Intent(i),
                ) && intent_key(i.agent_id, i.seq_no) == k),
    decreases datagrams.len(),
{
    if datagrams.len() > 0 {
        let init = datagrams.drop_last();
        lemma_batch_keys(seen, init);
        assert forall|k: u32| #[trigger]
            receive_batch(seen, datagrams).0.contains(k) implies seen.contains(k) || exists|d: int|
                0 <= d < datagrams.len() && (#[trigger] packet_decode(datagrams[d]) matches Some(
                    PacketView::Intent(i),
                ) && intent_key(i.agent_id, i.seq_no) == k) by {
            if receive_batch(seen, init).0.contains(k) {
                if !seen.contains(k) {
                    let d = choose|d: int|
                        0 <= d < init.len() && (#[trigger] packet_decode(init[d]) matches Some(
                            PacketView::Intent(i),
                        ) && intent_key(i.agent_id, i.seq_no) == k);
                    assert(datagrams[d] == init[d]);
                }
            } else {
                assert(packet_decode(datagrams[datagrams.len() - 1]) is Some);
            }
        }
    }
}

/// Packets kept from the first datagrams stay kept when more arrive.
proof fn lemma_batch_prefix(seen: Set<u32>, datagrams: Seq<Seq<u8>>, n: int)
    requires
        0 <= n <= datagrams.len(),
    ensures
        receive_batch(seen, datagrams.take(n)).1.is_prefix_of(receive_batch(seen, datagrams).1),
    decreases datagrams.len() - n,
{
    if n < datagrams.len() {
        let init = datagrams.drop_last();
        assert(init.take(n) =~= datagrams.take(n));
        lemma_batch_prefix(seen, init, n);
    } else {
        assert(datagrams.take(n) =~= datagrams);
    }
}

/// An INTENT is delivered unless its (agent, sequence number) pair was heard
/// before: an INTENT whose key was not heard before the batch, and whose pair no
/// earlier datagram of the batch carries, is among the packets kept.
pub proof fn lemma_new_intent_delivered(seen: Set<u32>, datagrams: Seq<Seq<u8>>, j: int)
    requires
        0 <= j < datagrams.len(),
        packet_decode(datagrams[j]) matches Some(PacketView::Intent(i)) && !seen.contains(
            intent_key(i.agent_id, i.seq_no),
        ) && forall|d: int|
            0 <= d < j ==> !(#[trigger] packet_decode(datagrams[d]) matches Some(PacketView::Intent(e))
                && e.agent_id == i.agent_id && e.seq_no == i.seq_no),
    ensures
        receive_batch(seen, datagrams).1.contains(packet_decode(datagrams[j])->0),
{
    let p = packet_decode(datagrams[j])->0;
    let i = p->Intent_0;
    let pre = datagrams.take(j);
    let upto = datagrams.take(j + 1);
    lemma_batch_keys(seen, pre);
    let k = intent_key(i.agent_id, i.seq_no);
    assert(!receive_batch(seen, pre).0.contains(k)) by {
        if receive_batch(seen, pre).0.contains(k) {
            let d = choose|d: int|
                0 <= d < pre.len() && (#[trigger] packet_decode(pre[d]) matches Some(
                    PacketView::Intent(e),
                ) && intent_key(e.agent_id, e.seq_no) == k);
            assert(pre[d] == datagrams[d]);
            let e = packet_decode(pre[d])->0->Intent_0;
            lemma_intent_key_injective(e.agent_id, e.seq_no, i.agent_id, i.seq_no);
        }
    }
    assert(upto.drop_last() =~= pre);
    assert(upto.last() == datagrams[j]);
    let out = receive_batch(seen, upto).1;
    assert(out.last() == p);
    lemma_batch_prefix(seen, datagrams, j + 1);
    let all = receive_batch(seen, datagrams).1;
    assert(all[out.len() - 1] == p);
}

} // verus!
