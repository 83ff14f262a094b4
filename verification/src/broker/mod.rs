//! The broker: a ring buffer of published messages and a registry of
//! clients, each with its subscription patterns and read position.
pub mod ring_buffer;

use std::collections::HashMap;

use vstd::prelude::*;
use vstd::std_specs::iter::IteratorSpec;

use crate::error::{Error, ErrorView, Result};
use crate::topic::{pattern_matches, TopicMatcher};
use crate::wire::{
    decode_error_text, decode_message, decoded_fields, encode_message, lemma_decode_roundtrip, lemma_wire_len, wire_bytes,
    wire_fields,
};
use crate::{uuid_text, BrokerConfig, BrokerStats, ClientId, Message};
use self::ring_buffer::{
    lemma_read_after_write, read_result, record_fits, state_after_write, RingBuffer, RingState,
    RECORD_HEADER_LEN,
};

verus! {

broadcast use vstd::std_specs::hash::group_hash_axioms;

/// The bytes a shared-memory segment reserves in front of the ring data.
pub const METADATA_SIZE: usize = 1024;

/// A registered client as the specifications see it: its subscription
/// patterns in the order they were made, and the ring position it reads
/// from next.
pub struct ClientState {
    pub patterns: Seq<Seq<char>>,
    pub read_position: usize,
}

/// A broker as the specifications see it; the registry maps the 128 bits
/// of each registered client id to that client.
pub struct BrokerState {
    pub ring: RingState,
    pub clients: Map<u128, ClientState>,
    pub messages_published: u64,
    pub messages_delivered: u64,
    pub max_clients: usize,
    pub max_subscriptions_per_client: usize,
}

/// The ring size `Broker::connect` opens a region of `len` bytes with: the
/// bytes after the first `METADATA_SIZE`, or none where there are fewer.
pub open spec fn connect_size(len: nat) -> usize {
    if len >= METADATA_SIZE {
        (len - METADATA_SIZE) as usize
    } else {
        0
    }
}

/// A client just registered: no patterns, reading from the oldest read
/// position, which is the start of the ring.
pub open spec fn fresh_client() -> ClientState {
    ClientState { patterns: Seq::empty(), read_position: 0 }
}

/// The patterns other than `pattern`.
pub open spec fn other_than(pattern: Seq<char>) -> spec_fn(Seq<char>) -> bool {
    |p: Seq<char>| p != pattern
}

/// Whether some pattern in `patterns` matches `topic`.
pub open spec fn any_pattern_matches(patterns: Seq<Seq<char>>, topic: Seq<char>) -> bool {
    exists|i: int| 0 <= i < patterns.len() && pattern_matches(#[trigger] patterns[i], topic)
}

/// Adds the subscription count of the client `id` of `clients` to `acc`.
pub open spec fn add_subscriptions(clients: Map<u128, ClientState>) -> spec_fn(int, u128) -> int {
    |acc: int, id: u128| acc + clients[id].patterns.len()
}

/// The sum of the subscription counts of the registered clients.
pub open spec fn subscription_count(clients: Map<u128, ClientState>) -> int {
    clients.dom().fold(0int, add_subscriptions(clients))
}

/// A message as it comes off the ring: topic name, payload, seconds and
/// nanoseconds since the UNIX epoch.
pub type MessageFields = (Seq<char>, Seq<u8>, u64, u32);

impl BrokerState {
    /// What the broker keeps true: the registry is finite, and there are
    /// never more clients than allowed, nor more patterns per client.
    pub open spec fn inv(self) -> bool {
        &&& self.ring.bytes.len() > 0
        &&& self.clients.dom().finite()
        &&& self.clients.len() <= self.max_clients
        &&& forall|id: u128|
            #[trigger] self.clients.contains_key(id) ==> self.clients[id].patterns.len()
                <= self.max_subscriptions_per_client
    }

    /// Registering `id`: refused with `ClientLimitExceeded` where the
    /// registry is full (counting `id` itself if it is there); otherwise
    /// `id` gets a fresh entry, replacing the one it had, if any.
    pub open spec fn register(self, id: u128) -> (BrokerState, core::result::Result<u128, ErrorView>) {
        if self.clients.len() >= self.max_clients {
            (self, Err(ErrorView::ClientLimitExceeded))
        } else {
            (BrokerState { clients: self.clients.insert(id, fresh_client()), ..self }, Ok(id))
        }
    }

    /// Unregistering `id`: its entry goes; `ClientNotFound` where it has
    /// none.
    pub open spec fn unregister(self, id: u128) -> (BrokerState, core::result::Result<(), ErrorView>) {
        if !self.clients.contains_key(id) {
            (self, Err(ErrorView::ClientNotFound(uuid_text(id))))
        } else {
            (BrokerState { clients: self.clients.remove(id), ..self }, Ok(()))
        }
    }

    /// Subscribing `id` to `pattern`: the pattern is added at the end of
    /// the client's list; `ClientNotFound` where `id` is not registered,
    /// `SubscriptionLimitExceeded` where its list is full.
    pub open spec fn subscribe(self, id: u128, pattern: Seq<char>) -> (BrokerState, core::result::Result<(), ErrorView>) {
        if !self.clients.contains_key(id) {
            (self, Err(ErrorView::ClientNotFound(uuid_text(id))))
        } else {
            let c = self.clients[id];
            if c.patterns.len() >= self.max_subscriptions_per_client {
                (self, Err(ErrorView::SubscriptionLimitExceeded(uuid_text(id))))
            } else {
                (
                    BrokerState {
                        clients: self.clients.insert(id, ClientState { patterns: c.patterns.push(pattern), ..c }),
                        ..self
                    },
                    Ok(()),
                )
            }
        }
    }

    /// Unsubscribing `id` from `pattern`: every copy of the pattern leaves
    /// the client's list, the others keep their order; `ClientNotFound`
    /// where `id` is not registered.
    pub open spec fn unsubscribe(self, id: u128, pattern: Seq<char>) -> (BrokerState, core::result::Result<(), ErrorView>) {
        if !self.clients.contains_key(id) {
            (self, Err(ErrorView::ClientNotFound(uuid_text(id))))
        } else {
            let c = self.clients[id];
            (
                BrokerState {
                    clients: self.clients.insert(
                        id,
                        ClientState { patterns: c.patterns.filter(other_than(pattern)), ..c },
                    ),
                    ..self
                },
                Ok(()),
            )
        }
    }

    /// Publishing the encoded message `bytes`: written to the ring as the
    /// next record, and counted (`BufferFull` where the record does not fit
    /// on the ring).
    pub open spec fn publish(self, bytes: Seq<u8>) -> (BrokerState, core::result::Result<(), ErrorView>) {
        if !record_fits(self.ring.bytes.len() as int, bytes.len() as int) {
            (self, Err(ErrorView::BufferFull))
        } else {
            (
                BrokerState {
                    ring: state_after_write(self.ring, bytes),
                    messages_published: self.messages_published.wrapping_add(1),
                    ..self
                },
                Ok(()),
            )
        }
    }

    /// Receiving for `id`: the record at the client's read position is read
    /// and decoded. Where that fails nothing changes (a decoding error
    /// carries `decode_error_text`). Otherwise the client's
    /// read position moves past the record, and the message is delivered
    /// (and counted) where one of the client's patterns matches its topic;
    /// where none does, the answer is `BufferEmpty`.
    pub open spec fn receive(self, id: u128) -> (BrokerState, core::result::Result<MessageFields, ErrorView>) {
        if !self.clients.contains_key(id) {
            (self, Err(ErrorView::ClientNotFound(uuid_text(id))))
        } else {
            let c = self.clients[id];
            match read_result(self.ring, c.read_position) {
                Err(e) => (self, Err(e)),
                Ok((data, next)) => match decoded_fields(data) {
                    None => (self, Err(ErrorView::DeserializationError(decode_error_text(data)))),
                    Some(fields) => {
                        let moved = self.clients.insert(id, ClientState { read_position: next, ..c });
                        if any_pattern_matches(c.patterns, fields.0) {
                            (
                                BrokerState {
                                    clients: moved,
                                    messages_delivered: self.messages_delivered.wrapping_add(1),
                                    ..self
                                },
                                Ok(fields),
                            )
                        } else {
                            (BrokerState { clients: moved, ..self }, Err(ErrorView::BufferEmpty))
                        }
                    },
                },
            }
        }
    }
}

/// What a read gives back of a write: a client that has read everything
/// there is receives the next message published, with the topic, payload
/// and timestamp it was published with, where one of its patterns matches
/// the topic; afterwards it has again read everything there is. (An encoded
/// message is never empty; the record must fit on the ring, which `publish`
/// checks; a length that does not fit a `u32` is left out.)
pub proof fn lemma_publish_then_receive(s: BrokerState, bytes: Seq<u8>, fields: MessageFields, id: u128)
    requires
        s.inv(),
        s.ring.bytes.len() <= usize::MAX,
        decoded_fields(bytes) == Some(fields),
        0 < bytes.len() <= u32::MAX,
        RECORD_HEADER_LEN + bytes.len() < s.ring.bytes.len(),
        s.clients.contains_key(id),
        s.clients[id].read_position == s.ring.write_pos,
        any_pattern_matches(s.clients[id].patterns, fields.0),
    ensures
        s.publish(bytes).1 == Ok::<(), ErrorView>(()),
        s.publish(bytes).0.receive(id).1 == Ok::<MessageFields, ErrorView>(fields),
        s.publish(bytes).0.receive(id).0.clients[id].read_position == s.publish(bytes).0.ring.write_pos,
        s.publish(bytes).0.receive(id).0.messages_delivered == s.messages_delivered.wrapping_add(1),
{
    lemma_read_after_write(s.ring, bytes);
}

/// End to end: a message published with topic `name`, payload `payload`
/// and time `secs`/`nanos` comes back to a caught-up client one of whose
/// patterns matches `name` with exactly that topic, payload and time. (The
/// same cases as in `lemma_publish_then_receive` are left out, and a time
/// whose nanoseconds are a billion or more, which comes back normalised.)
pub proof fn lemma_published_message_is_received(
    s: BrokerState,
    name: Seq<char>,
    payload: Seq<u8>,
    secs: u64,
    nanos: u32,
    id: u128,
)
    requires
        s.inv(),
        s.ring.bytes.len() <= usize::MAX,
        nanos < 1_000_000_000,
        wire_bytes(name, payload, secs, nanos).len() <= u32::MAX,
        RECORD_HEADER_LEN + wire_bytes(name, payload, secs, nanos).len() < s.ring.bytes.len(),
        s.clients.contains_key(id),
        s.clients[id].read_position == s.ring.write_pos,
        any_pattern_matches(s.clients[id].patterns, name),
    ensures
        ({
            let published = s.publish(wire_bytes(name, payload, secs, nanos));
            &&& published.1 == Ok::<(), ErrorView>(())
            &&& published.0.receive(id).1 == Ok::<MessageFields, ErrorView>((name, payload, secs, nanos))
        }),
{
    let bytes = wire_bytes(name, payload, secs, nanos);
    lemma_wire_len(name, payload, secs, nanos);
    lemma_decode_roundtrip(name, payload, secs, nanos);
    lemma_publish_then_receive(s, bytes, (name, payload, secs, nanos), id);
}

/// A message none of a caught-up client's patterns match is skipped: the
/// client is told `BufferEmpty`, and its read position moves past the
/// message, to the write position.
pub proof fn lemma_unmatched_message_skipped(s: BrokerState, bytes: Seq<u8>, fields: MessageFields, id: u128)
    requires
        s.inv(),
        s.ring.bytes.len() <= usize::MAX,
        decoded_fields(bytes) == Some(fields),
        0 < bytes.len() <= u32::MAX,
        RECORD_HEADER_LEN + bytes.len() < s.ring.bytes.len(),
        s.clients.contains_key(id),
        s.clients[id].read_position == s.ring.write_pos,
        !any_pattern_matches(s.clients[id].patterns, fields.0),
    ensures
        s.publish(bytes).0.receive(id).1 == Err::<MessageFields, ErrorView>(ErrorView::BufferEmpty),
        s.publish(bytes).0.receive(id).0.clients[id].read_position == s.publish(bytes).0.ring.write_pos,
        s.publish(bytes).0.receive(id).0.messages_delivered == s.messages_delivered,
{
    lemma_read_after_write(s.ring, bytes);
}

/// A registered client is found again, as a fresh client, and the registry
/// grew by one unless the id was there already.
pub proof fn lemma_register_then_found(s: BrokerState, id: u128)
    requires
        s.inv(),
        s.register(id).1 is Ok,
    ensures
        s.register(id).0.clients.contains_key(id),
        s.register(id).0.clients[id] == fresh_client(),
        s.register(id).0.clients.len() == s.clients.len() + (if s.clients.contains_key(id) {
            0int
        } else {
            1int
        }),
        s.register(id).0.inv(),
{
    let after = s.register(id).0;
    if s.clients.contains_key(id) {
        assert(after.clients.dom() =~= s.clients.dom());
    } else {
        assert(after.clients.dom() =~= s.clients.dom().insert(id));
    }
}

/// An unregistered client is gone, and the registry shrank by one.
pub proof fn lemma_unregister_then_gone(s: BrokerState, id: u128)
    requires
        s.inv(),
        s.unregister(id).1 is Ok,
    ensures
        !s.unregister(id).0.clients.contains_key(id),
        s.unregister(id).0.clients.len() == s.clients.len() - 1,
        s.unregister(id).0.inv(),
{
    assert(s.unregister(id).0.clients.dom() =~= s.clients.dom().remove(id));
}

/// Each client's own list is all the subscription limit counts: a
/// registered client with fewer patterns than the limit can always
/// subscribe, whatever the other clients hold, and the pattern is added at
/// the end of its own list alone.
pub proof fn lemma_subscribe_below_limit(s: BrokerState, id: u128, pattern: Seq<char>)
    requires
        s.clients.contains_key(id),
        s.clients[id].patterns.len() < s.max_subscriptions_per_client,
    ensures
        s.subscribe(id, pattern).1 is Ok,
        s.subscribe(id, pattern).0.clients.dom() == s.clients.dom(),
        s.subscribe(id, pattern).0.clients[id].patterns == s.clients[id].patterns.push(pattern),
        s.subscribe(id, pattern).0.clients[id].read_position == s.clients[id].read_position,
        s.subscribe(id, pattern).0.clients.remove(id) == s.clients.remove(id),
{
    let after = s.subscribe(id, pattern).0;
    assert(after.clients.dom() =~= s.clients.dom());
    assert(after.clients.remove(id) =~= s.clients.remove(id));
}

/// A client at its limit is refused, and nothing changes.
pub proof fn lemma_subscribe_at_limit(s: BrokerState, id: u128, pattern: Seq<char>)
    requires
        s.clients.contains_key(id),
        s.clients[id].patterns.len() >= s.max_subscriptions_per_client,
    ensures
        s.subscribe(id, pattern) == (s, Err::<(), ErrorView>(
            ErrorView::SubscriptionLimitExceeded(uuid_text(id)),
        )),
{
}

/// Every registered client can be unregistered, whatever it is subscribed
/// to: it leaves the registry, and every other client stays as it was.
pub proof fn lemma_registered_client_unregisters(s: BrokerState, id: u128)
    requires
        s.inv(),
        s.clients.contains_key(id),
    ensures
        s.unregister(id).1 is Ok,
        !s.unregister(id).0.clients.contains_key(id),
        s.unregister(id).0.clients == s.clients.remove(id),
        s.unregister(id).0.clients.len() == s.clients.len() - 1,
{
    assert(s.unregister(id).0.clients.dom() =~= s.clients.dom().remove(id));
}

/// Unsubscribing from a pattern just subscribed to leaves the client with
/// its earlier patterns other than that one; where it had not subscribed to
/// the pattern before, exactly its earlier patterns. Every other client
/// stays as it was.
pub proof fn lemma_subscribe_then_unsubscribe(s: BrokerState, id: u128, pattern: Seq<char>)
    requires
        s.inv(),
        s.subscribe(id, pattern).1 is Ok,
    ensures
        ({
            let after = s.subscribe(id, pattern).0.unsubscribe(id, pattern).0;
            &&& after.clients.dom() == s.clients.dom()
            &&& after.clients[id].patterns == s.clients[id].patterns.filter(other_than(pattern))
            &&& !s.clients[id].patterns.contains(pattern) ==> after.clients[id].patterns
                == s.clients[id].patterns
            &&& after.clients[id].read_position == s.clients[id].read_position
            &&& after.clients.remove(id) == s.clients.remove(id)
        }),
{
    let old_ps = s.clients[id].patterns;
    let mid = s.subscribe(id, pattern).0;
    let after = mid.unsubscribe(id, pattern).0;
    reveal_with_fuel(Seq::<_>::filter, 1);
    assert(old_ps.push(pattern).drop_last() =~= old_ps);
    assert(after.clients[id].patterns == old_ps.push(pattern).filter(other_than(pattern)));
    assert(old_ps.push(pattern).filter(other_than(pattern)) == old_ps.filter(other_than(pattern)));
    if !old_ps.contains(pattern) {
        lemma_filter_keeps_all(old_ps, pattern);
    }
    assert(after.clients.dom() =~= s.clients.dom());
    assert(after.clients.remove(id) =~= s.clients.remove(id));
}

/// Registering a new id and unregistering it again leaves the broker as it
/// was.
pub proof fn lemma_register_then_unregister(s: BrokerState, id: u128)
    requires
        s.inv(),
        !s.clients.contains_key(id),
        s.register(id).1 is Ok,
    ensures
        s.register(id).0.unregister(id).1 == Ok::<(), ErrorView>(()),
        s.register(id).0.unregister(id).0 == s,
{
    assert(s.clients.insert(id, fresh_client()).remove(id) =~= s.clients);
}

/// Readers are independent: receiving for one client leaves every other
/// client (its patterns and its read position) as it was, and no client
/// joins or leaves.
pub proof fn lemma_receive_leaves_others(s: BrokerState, id: u128)
    requires
        s.inv(),
    ensures
        s.receive(id).0.clients.dom() == s.clients.dom(),
        s.receive(id).0.clients.remove(id) == s.clients.remove(id),
{
    let after = s.receive(id).0;
    assert(after.clients.dom() =~= s.clients.dom());
    assert(after.clients.remove(id) =~= s.clients.remove(id));
}

/// Publishing touches only the ring and the count of published messages:
/// the registry, the delivered count and the limits stay as they were.
pub proof fn lemma_publish_keeps_registry(s: BrokerState, bytes: Seq<u8>)
    ensures
        s.publish(bytes).0.clients == s.clients,
        s.publish(bytes).0.messages_delivered == s.messages_delivered,
        s.publish(bytes).0.max_clients == s.max_clients,
        s.publish(bytes).0.max_subscriptions_per_client == s.max_subscriptions_per_client,
{
}

/// Unsubscribing twice from a pattern is the same as unsubscribing once.
pub proof fn lemma_unsubscribe_idempotent(s: BrokerState, id: u128, pattern: Seq<char>)
    requires
        s.inv(),
    ensures
        s.unsubscribe(id, pattern).0.unsubscribe(id, pattern) == s.unsubscribe(id, pattern),
{
    if s.clients.contains_key(id) {
        let once = s.unsubscribe(id, pattern).0;
        let ps = s.clients[id].patterns.filter(other_than(pattern));
        lemma_filter_drops_all(s.clients[id].patterns, pattern);
        lemma_filter_keeps_all(ps, pattern);
        assert(once.clients.insert(id, ClientState { patterns: ps.filter(other_than(pattern)), ..once.clients[id] })
            =~= once.clients);
    }
}

/// Folding two functions that agree on every element of a finite set gives
/// the same result.
proof fn lemma_fold_agrees(keys: Set<u128>, f: spec_fn(int, u128) -> int, g: spec_fn(int, u128) -> int)
    requires
        keys.finite(),
        vstd::set::fold::is_fun_commutative(f),
        vstd::set::fold::is_fun_commutative(g),
        forall|acc: int, k: u128| keys.contains(k) ==> #[trigger] f(acc, k) == g(acc, k),
    ensures
        keys.fold(0int, f) == keys.fold(0int, g),
    decreases keys.len(),
{
    if keys.len() == 0 {
        assert(keys =~= Set::empty());
        vstd::set::fold::lemma_fold_empty(0int, f);
        vstd::set::fold::lemma_fold_empty(0int, g);
    } else {
        let k = keys.choose();
        let rest = keys.remove(k);
        lemma_fold_agrees(rest, f, g);
        assert(rest.insert(k) =~= keys);
        vstd::set::fold::lemma_fold_insert(rest, 0int, f, k);
        vstd::set::fold::lemma_fold_insert(rest, 0int, g, k);
    }
}

/// The subscription count with the entry of `id` replaced by `c`: the old
/// entry's patterns go out of the count, the new ones come in.
proof fn lemma_count_after_update(clients: Map<u128, ClientState>, id: u128, c: ClientState)
    requires
        clients.dom().finite(),
        clients.contains_key(id),
    ensures
        subscription_count(clients.insert(id, c)) == subscription_count(clients) - clients[id].patterns.len()
            + c.patterns.len(),
{
    let after = clients.insert(id, c);
    let rest = clients.dom().remove(id);
    let f = add_subscriptions(clients);
    let g = add_subscriptions(after);
    assert(vstd::set::fold::is_fun_commutative(f));
    assert(vstd::set::fold::is_fun_commutative(g));
    assert(after.dom() =~= clients.dom());
    assert(rest.insert(id) =~= clients.dom());
    vstd::set::fold::lemma_fold_insert(rest, 0int, f, id);
    vstd::set::fold::lemma_fold_insert(rest, 0int, g, id);
    lemma_fold_agrees(rest, f, g);
}

/// Registries with the same clients holding the same patterns have the same
/// subscription count, whatever their read positions.
pub proof fn lemma_same_patterns_same_count(a: Map<u128, ClientState>, b: Map<u128, ClientState>)
    requires
        a.dom().finite(),
        a.dom() == b.dom(),
        forall|id: u128| #[trigger] a.contains_key(id) ==> a[id].patterns == b[id].patterns,
    ensures
        subscription_count(a) == subscription_count(b),
{
    let f = add_subscriptions(a);
    let g = add_subscriptions(b);
    assert(vstd::set::fold::is_fun_commutative(f));
    assert(vstd::set::fold::is_fun_commutative(g));
    assert forall|acc: int, k: u128| a.dom().contains(k) implies #[trigger] f(acc, k) == g(acc, k) by {
        assert(a.contains_key(k));
    }
    lemma_fold_agrees(a.dom(), f, g);
}

/// A subscription adds one to the broker's subscription count, and an
/// unsubscription takes away as many as the client held copies of the
/// pattern.
pub proof fn lemma_subscription_counts(s: BrokerState, id: u128, pattern: Seq<char>)
    requires
        s.inv(),
    ensures
        s.subscribe(id, pattern).1 is Ok ==> subscription_count(s.subscribe(id, pattern).0.clients)
            == subscription_count(s.clients) + 1,
        s.unsubscribe(id, pattern).1 is Ok ==> subscription_count(s.unsubscribe(id, pattern).0.clients)
            == subscription_count(s.clients) - (s.clients[id].patterns.len()
            - s.clients[id].patterns.filter(other_than(pattern)).len()),
{
    if s.clients.contains_key(id) {
        let c = s.clients[id];
        lemma_count_after_update(s.clients, id, ClientState { patterns: c.patterns.push(pattern), ..c });
        lemma_count_after_update(
            s.clients,
            id,
            ClientState { patterns: c.patterns.filter(other_than(pattern)), ..c },
        );
    }
}

proof fn lemma_filter_keeps_all(ps: Seq<Seq<char>>, pattern: Seq<char>)
    requires
        !ps.contains(pattern),
    ensures
        ps.filter(other_than(pattern)) == ps,
    decreases ps.len(),
{
    reveal_with_fuel(Seq::<_>::filter, 1);
    if ps.len() > 0 {
        assert(!ps.drop_last().contains(pattern)) by {
            if ps.drop_last().contains(pattern) {
                let k = choose|k: int| 0 <= k < ps.drop_last().len() && ps.drop_last()[k] == pattern;
                assert(ps[k] == pattern);
            }
        }
        lemma_filter_keeps_all(ps.drop_last(), pattern);
        assert(ps.last() != pattern) by {
            if ps.last() == pattern {
                assert(ps[ps.len() - 1] == pattern);
            }
        }
        assert(ps.drop_last().push(ps.last()) =~= ps);
    }
}

proof fn lemma_filter_drops_all(ps: Seq<Seq<char>>, pattern: Seq<char>)
    ensures
        !ps.filter(other_than(pattern)).contains(pattern),
{
    if ps.filter(other_than(pattern)).contains(pattern) {
        let k = choose|k: int|
            0 <= k < ps.filter(other_than(pattern)).len() && ps.filter(other_than(pattern))[k] == pattern;
        broadcast use vstd::seq_lib::group_filter_ensures;
        assert(other_than(pattern)(ps.filter(other_than(pattern))[k]));
    }
}

/// A counter that started at `start` after `n` more counts, wrapping
/// around at 2^64 as the broker's counters do.
pub open spec fn counter_after(start: u64, n: int) -> u64 {
    ((start + n) % 0x1_0000_0000_0000_0000) as u64
}

pub proof fn lemma_counter_step(start: u64, n: int)
    requires
        0 <= n,
    ensures
        counter_after(start, n).wrapping_add(1) == counter_after(start, n + 1),
{
    let m = 0x1_0000_0000_0000_0000int;
    vstd::arithmetic::div_mod::lemma_add_mod_noop_right(1, start + n, m);
    assert(1 + (start + n) == start + n + 1);
    vstd::arithmetic::div_mod::lemma_mod_bound(start + n, m);
    vstd::arithmetic::div_mod::lemma_mod_bound(start + n + 1, m);
    let c = (start + n) % m;
    if c + 1 == m {
        vstd::arithmetic::div_mod::lemma_mod_self_0(m);
    } else {
        vstd::arithmetic::div_mod::lemma_small_mod((c + 1) as nat, m as nat);
    }
    assert(counter_after(start, n) as int == c);
}

/// A call on a broker, as the specifications see it.
pub enum Call {
    Register(u128),
    Unregister(u128),
    Subscribe(u128, Seq<char>),
    Unsubscribe(u128, Seq<char>),
    Publish(Seq<u8>),
    Receive(u128),
}

impl BrokerState {
    /// The broker after `c`, and whether `c` succeeded.
    pub open spec fn call(self, c: Call) -> (BrokerState, bool) {
        match c {
            Call::Register(id) => (self.register(id).0, self.register(id).1 is Ok),
            Call::Unregister(id) => (self.unregister(id).0, self.unregister(id).1 is Ok),
            Call::Subscribe(id, p) => (self.subscribe(id, p).0, self.subscribe(id, p).1 is Ok),
            Call::Unsubscribe(id, p) => (self.unsubscribe(id, p).0, self.unsubscribe(id, p).1 is Ok),
            Call::Publish(bytes) => (self.publish(bytes).0, self.publish(bytes).1 is Ok),
            Call::Receive(id) => (self.receive(id).0, self.receive(id).1 is Ok),
        }
    }
}

/// The broker after `calls`, made in turn from `s`.
pub open spec fn run(s: BrokerState, calls: Seq<Call>) -> BrokerState
    decreases calls.len(),
{
    if calls.len() == 0 {
        s
    } else {
        run(s, calls.drop_last()).call(calls.last()).0
    }
}

/// How many of `calls`, made in turn from `s`, were publishes that
/// succeeded.
pub open spec fn published_in(s: BrokerState, calls: Seq<Call>) -> int
    decreases calls.len(),
{
    if calls.len() == 0 {
        0
    } else {
        published_in(s, calls.drop_last()) + if calls.last() is Publish && run(
            s,
            calls.drop_last(),
        ).call(calls.last()).1 {
            1int
        } else {
            0int
        }
    }
}

/// How many of `calls`, made in turn from `s`, were receives that
/// delivered a message.
pub open spec fn delivered_in(s: BrokerState, calls: Seq<Call>) -> int
    decreases calls.len(),
{
    if calls.len() == 0 {
        0
    } else {
        delivered_in(s, calls.drop_last()) + if calls.last() is Receive && run(
            s,
            calls.drop_last(),
        ).call(calls.last()).1 {
            1int
        } else {
            0int
        }
    }
}

/// Over any history of calls, the published count grows by the publishes
/// that succeeded and the delivered count by the receives that delivered a
/// message (both wrapping at 2^64), and the limits stay as they were.
pub proof fn lemma_counters_over_history(s: BrokerState, calls: Seq<Call>)
    ensures
        run(s, calls).messages_published == counter_after(s.messages_published, published_in(s, calls)),
        run(s, calls).messages_delivered == counter_after(s.messages_delivered, delivered_in(s, calls)),
        run(s, calls).max_clients == s.max_clients,
        run(s, calls).max_subscriptions_per_client == s.max_subscriptions_per_client,
        0 <= published_in(s, calls) <= calls.len(),
        0 <= delivered_in(s, calls) <= calls.len(),
    decreases calls.len(),
{
    if calls.len() == 0 {
        vstd::arithmetic::div_mod::lemma_small_mod(s.messages_published as nat, 0x1_0000_0000_0000_0000nat);
        vstd::arithmetic::div_mod::lemma_small_mod(s.messages_delivered as nat, 0x1_0000_0000_0000_0000nat);
    } else {
        let qs = calls.drop_last();
        lemma_counters_over_history(s, qs);
        lemma_counter_step(s.messages_published, published_in(s, qs));
        lemma_counter_step(s.messages_delivered, delivered_in(s, qs));
    }
}

/// Connecting to the segment a broker keeps its ring in (the region of the
/// ring, then the rest of the `METADATA_SIZE` bytes, whatever they hold)
/// finds a ring of the same size, with the same bytes, write position and
/// sequence number.
pub proof fn lemma_connect_sees_the_ring(r: RingState, padding: Seq<u8>)
    requires
        0 < r.bytes.len() <= usize::MAX - METADATA_SIZE,
        padding.len() == METADATA_SIZE - ring_buffer::DATA_OFFSET,
    ensures
        connect_size(ring_buffer::region_of(r).len() + padding.len()) == r.bytes.len(),
        ring_buffer::open_result(
            ring_buffer::region_of(r) + padding,
            connect_size(ring_buffer::region_of(r).len() + padding.len()),
            false,
        ) == Ok::<RingState, ErrorView>(r),
{
    let region = ring_buffer::region_of(r);
    let segment = region + padding;
    let size = r.bytes.len() as usize;
    ring_buffer::lemma_reopen_region(r);
    assert(region.len() == ring_buffer::DATA_OFFSET + size);
    assert(segment.subrange(0, 8) =~= region.subrange(0, 8));
    assert(segment.subrange(8, 16) =~= region.subrange(8, 16));
    assert(segment.subrange(16, 24) =~= region.subrange(16, 24));
    assert(segment.subrange(24, 28) =~= region.subrange(24, 28));
    assert(segment.subrange(ring_buffer::DATA_OFFSET as int, ring_buffer::DATA_OFFSET + size)
        =~= region.subrange(ring_buffer::DATA_OFFSET as int, ring_buffer::DATA_OFFSET + size));
}

/// The length of a message's encoding: two length fields, the topic name's
/// UTF-8 bytes, the payload, and the timestamp's seconds and nanoseconds.
pub open spec fn encoded_len(m: Message) -> int {
    28 + vstd::utf8::encode_utf8(m.topic@).len() as int + m.payload@.len() as int
}

/// The fields of a decoded message.
pub open spec fn message_fields(m: Message) -> MessageFields {
    match m.timestamp {
        Some(t) => (m.topic@, m.payload@, t.secs_since_epoch, t.nanos_since_epoch),
        None => (m.topic@, m.payload@, 0, 0),
    }
}

/// Whether some matcher in `patterns` matches `topic`.
fn any_matches(patterns: &Vec<TopicMatcher>, topic: &str) -> (res: bool)
    ensures
        res == any_pattern_matches(patterns@.map_values(|m: TopicMatcher| m@), topic@),
{
    let ghost ps = patterns@.map_values(|m: TopicMatcher| m@);
    let mut k: usize = 0;
    while k < patterns.len()
        invariant
            ps == patterns@.map_values(|m: TopicMatcher| m@),
            k <= patterns@.len(),
            forall|j: int| 0 <= j < k ==> !pattern_matches(#[trigger] ps[j], topic@),
        decreases patterns@.len() - k,
    {
        if patterns[k].matches(topic) {
            assert(pattern_matches(ps[k as int], topic@));
            return true;
        }
        k = k + 1;
    }
    false
}

/// A registered client's subscriptions and read position.
struct ClientInfo {
    patterns: Vec<TopicMatcher>,
    read_position: usize,
}

impl View for ClientInfo {
    type V = ClientState;

    closed spec fn view(&self) -> ClientState {
        ClientState {
            patterns: self.patterns@.map_values(|m: TopicMatcher| m@),
            read_position: self.read_position,
        }
    }
}

/// The broker: a ring buffer of published messages and a registry of
/// clients with their subscriptions.
pub struct Broker {
    ring_buffer: RingBuffer,
    clients: HashMap<u128, ClientInfo>,
    messages_published: u64,
    messages_delivered: u64,
    config: BrokerConfig,
}

impl View for Broker {
    type V = BrokerState;

    closed spec fn view(&self) -> BrokerState {
        BrokerState {
            ring: self.ring_buffer@,
            clients: self.clients@.map_values(|c: ClientInfo| c@),
            messages_published: self.messages_published,
            messages_delivered: self.messages_delivered,
            max_clients: self.config.max_clients,
            max_subscriptions_per_client: self.config.max_subscriptions_per_client,
        }
    }
}

impl Broker {
    /// The broker's invariant holds and its pieces are well formed.
    pub closed spec fn wf(&self) -> bool {
        &&& self@.inv()
        &&& self.ring_buffer.wf()
        &&& self.ring_buffer@.bytes.len() == self.config.buffer_size
    }

    /// The configuration the broker runs with.
    pub closed spec fn config(&self) -> BrokerConfig {
        self.config
    }

    proof fn lemma_registry_size(&self)
        ensures
            self@.clients.dom() == self.clients@.dom(),
            self@.clients.len() == self.clients@.len(),
    {
        assert(self@.clients.dom() =~= self.clients@.dom());
    }

    pub proof fn lemma_wf(&self)
        requires
            self.wf(),
        ensures
            self@.inv(),
            self@.ring.bytes.len() == self.config().buffer_size,
            self.config().max_clients == self@.max_clients,
            self.config().max_subscriptions_per_client == self@.max_subscriptions_per_client,
    {
    }

    /// Creates a broker with an empty registry and a ring of
    /// `config.buffer_size` zero bytes, as a fresh shared-memory segment of
    /// `buffer_size + METADATA_SIZE` bytes holds. A buffer size of zero is
    /// refused with `InvalidConfig`.
    pub fn new(config: BrokerConfig) -> (res: Result<Self>)
        requires
            config.buffer_size <= usize::MAX - METADATA_SIZE,
        ensures
            match res {
                Ok(b) => {
                    &&& config.buffer_size > 0
                    &&& b.wf()
                    &&& b.config() == config
                    &&& b@ == (BrokerState {
                        ring: RingState {
                            bytes: Seq::new(config.buffer_size as nat, |i: int| 0u8),
                            write_pos: 0,
                            sequence: 0,
                        },
                        clients: Map::empty(),
                        messages_published: 0,
                        messages_delivered: 0,
                        max_clients: config.max_clients,
                        max_subscriptions_per_client: config.max_subscriptions_per_client,
                    })
                },
                Err(e) => config.buffer_size == 0 && e@ == ErrorView::InvalidConfig(
                    "Buffer size cannot be zero"@,
                ),
            },
    {
        if config.buffer_size == 0 {
            return Err(Error::InvalidConfig("Buffer size cannot be zero".to_string()));
        }
        let total_size = config.buffer_size + METADATA_SIZE;
        let region: Vec<u8> = vec![0u8; total_size];
        let ring_buffer = match RingBuffer::from_raw_parts(region.as_slice(), config.buffer_size, true) {
            Ok(r) => r,
            Err(e) => return Err(e),
        };
        proof {
            ring_buffer.lemma_wf();
            assert(ring_buffer@.bytes =~= Seq::new(config.buffer_size as nat, |i: int| 0u8));
        }
        let b = Broker {
            ring_buffer,
            clients: HashMap::new(),
            messages_published: 0,
            messages_delivered: 0,
            config,
        };
        assert(b@.clients =~= Map::empty());
        Ok(b)
    }

    /// Opens the ring held in the region of an existing segment (metadata
    /// block, then the ring data) with an empty registry and the default
    /// limits; the ring opens as `open_result` says for `connect_size`
    /// bytes. The ring is taken to be the segment's length less
    /// `METADATA_SIZE`, which is what `Broker::new` reserves a segment for,
    /// so both ends agree on the ring's size. The metadata fields are
    /// checked first: a region that holds them but lacks the magic number or
    /// the version is refused with `InvalidConfig`, whatever its size; a
    /// region too short for them, for the whole block, or with no ring bytes
    /// after the `METADATA_SIZE` bytes, with `InvalidBufferSize`.
    pub fn connect(name: &str, region: &[u8]) -> (res: Result<Self>)
        ensures
            match res {
                Ok(b) => {
                    &&& region@.len() > METADATA_SIZE
                    &&& b.wf()
                    &&& ring_buffer::open_result(region@, connect_size(region@.len()), false)
                        == Ok::<RingState, ErrorView>(b@.ring)
                    &&& b@.clients == Map::<u128, ClientState>::empty()
                    &&& b@.messages_published == 0
                    &&& b@.messages_delivered == 0
                    &&& b.config().name@ == name@
                    &&& b.config().buffer_size == region@.len() - METADATA_SIZE
                    &&& b.config().max_clients == 1000
                    &&& b.config().max_subscriptions_per_client == 100
                },
                Err(e) => ring_buffer::open_result(region@, connect_size(region@.len()), false)
                    == Err::<RingState, ErrorView>(e@),
            },
    {
        let size = if region.len() >= METADATA_SIZE {
            region.len() - METADATA_SIZE
        } else {
            0
        };
        let ring_buffer = match RingBuffer::from_raw_parts(region, size, false) {
            Ok(r) => r,
            Err(e) => return Err(e),
        };
        proof {
            ring_buffer.lemma_wf();
        }
        let mut config = BrokerConfig::default();
        config.name = name.to_string();
        config.buffer_size = size;
        let b = Broker {
            ring_buffer,
            clients: HashMap::new(),
            messages_published: 0,
            messages_delivered: 0,
            config,
        };
        assert(b@.clients =~= Map::empty());
        Ok(b)
    }

    /// Registers a new client under a fresh random id: see
    /// `register_client_with_id`. The name is not kept.
    pub fn register_client(&mut self, name: &str) -> (res: Result<ClientId>)
        requires
            old(self).wf(),
        ensures
            final(self).wf(),
            final(self).config() == old(self).config(),
            old(self)@.clients.len() >= old(self)@.max_clients ==> {
                &&& res matches Err(e) && e@ == ErrorView::ClientLimitExceeded
                &&& final(self)@ == old(self)@
            },
            old(self)@.clients.len() < old(self)@.max_clients ==> {
                &&& res is Ok
                &&& crate::is_random_uuid(res->Ok_0@)
                &&& final(self)@ == old(self)@.register(res->Ok_0@).0
            },
    {
        let client_id = ClientId::new();
        self.register_client_with_id(client_id)
    }

    /// Registers the client `client_id`: see `BrokerState::register`.
    pub fn register_client_with_id(&mut self, client_id: ClientId) -> (res: Result<ClientId>)
        requires
            old(self).wf(),
        ensures
            final(self).wf(),
            final(self).config() == old(self).config(),
            final(self)@ == old(self)@.register(client_id@).0,
            match res {
                Ok(id) => id == client_id && old(self)@.register(client_id@).1 == Ok::<u128, ErrorView>(id@),
                Err(e) => old(self)@.register(client_id@).1 == Err::<u128, ErrorView>(e@),
            },
    {
        proof {
            self.lemma_registry_size();
        }
        if self.clients.len() >= self.config.max_clients {
            return Err(Error::ClientLimitExceeded);
        }
        let ghost before = self@;
        let fresh = ClientInfo { patterns: Vec::new(), read_position: self.ring_buffer.oldest_read_pos() };
        assert(fresh@ == fresh_client()) by {
            assert(fresh@.patterns =~= Seq::empty());
        }
        self.clients.insert(client_id.as_u128(), fresh);
        proof {
            assert(self@.clients =~= before.clients.insert(client_id@, fresh_client()));
            if before.clients.contains_key(client_id@) {
                assert(self@.clients.dom() =~= before.clients.dom());
            } else {
                assert(self@.clients.dom() =~= before.clients.dom().insert(client_id@));
            }
        }
        Ok(client_id)
    }

    /// Unregisters a client: see `BrokerState::unregister`.
    pub fn unregister_client(&mut self, client_id: &ClientId) -> (res: Result<()>)
        requires
            old(self).wf(),
        ensures
            final(self).wf(),
            final(self).config() == old(self).config(),
            final(self)@ == old(self)@.unregister(client_id@).0,
            match res {
                Ok(()) => old(self)@.unregister(client_id@).1 == Ok::<(), ErrorView>(()),
                Err(e) => old(self)@.unregister(client_id@).1 == Err::<(), ErrorView>(e@),
            },
    {
        let ghost before = self@;
        let key = client_id.as_u128();
        match self.clients.remove(&key) {
            None => {
                assert(self@.clients =~= before.clients);
                Err(Error::ClientNotFound(client_id.as_str()))
            },
            Some(_) => {
                proof {
                    assert(self@.clients =~= before.clients.remove(key));
                    assert(self@.clients.dom() =~= before.clients.dom().remove(key));
                }
                Ok(())
            },
        }
    }

    /// Subscribes a client to a topic pattern: see
    /// `BrokerState::subscribe`.
    pub fn subscribe(&mut self, client_id: &ClientId, pattern: &str) -> (res: Result<()>)
        requires
            old(self).wf(),
        ensures
            final(self).wf(),
            final(self).config() == old(self).config(),
            final(self)@ == old(self)@.subscribe(client_id@, pattern@).0,
            match res {
                Ok(()) => old(self)@.subscribe(client_id@, pattern@).1 == Ok::<(), ErrorView>(()),
                Err(e) => old(self)@.subscribe(client_id@, pattern@).1 == Err::<(), ErrorView>(e@),
            },
    {
        let ghost before = self@;
        let key = client_id.as_u128();
        let mut info = match self.clients.remove(&key) {
            None => {
                assert(self@.clients =~= before.clients);
                return Err(Error::ClientNotFound(client_id.as_str()));
            },
            Some(info) => info,
        };
        assert(info@ == before.clients[key]);
        if info.patterns.len() >= self.config.max_subscriptions_per_client {
            self.clients.insert(key, info);
            assert(self@.clients =~= before.clients);
            return Err(Error::SubscriptionLimitExceeded(client_id.as_str()));
        }
        let matcher = TopicMatcher::new(pattern);
        info.patterns.push(matcher);
        let ghost c = before.clients[key];
        assert(info@ == ClientState { patterns: c.patterns.push(pattern@), ..c }) by {
            assert(info@.patterns =~= c.patterns.push(pattern@));
        }
        self.clients.insert(key, info);
        proof {
            assert(self@.clients =~= before.clients.insert(key, ClientState { patterns: c.patterns.push(pattern@), ..c }));
            assert(self@.clients.dom() =~= before.clients.dom());
        }
        Ok(())
    }

    /// Unsubscribes a client from a topic pattern: see
    /// `BrokerState::unsubscribe`.
    pub fn unsubscribe(&mut self, client_id: &ClientId, pattern: &str) -> (res: Result<()>)
        requires
            old(self).wf(),
        ensures
            final(self).wf(),
            final(self).config() == old(self).config(),
            final(self)@ == old(self)@.unsubscribe(client_id@, pattern@).0,
            match res {
                Ok(()) => old(self)@.unsubscribe(client_id@, pattern@).1 == Ok::<(), ErrorView>(()),
                Err(e) => old(self)@.unsubscribe(client_id@, pattern@).1 == Err::<(), ErrorView>(e@),
            },
    {
        let ghost before = self@;
        let key = client_id.as_u128();
        let mut info = match self.clients.remove(&key) {
            None => {
                assert(self@.clients =~= before.clients);
                return Err(Error::ClientNotFound(client_id.as_str()));
            },
            Some(info) => info,
        };
        let target = pattern.to_string();
        let mut pats: Vec<TopicMatcher> = Vec::new();
        core::mem::swap(&mut pats, &mut info.patterns);
        let ghost pred = other_than(pattern@);
        let ghost orig = pats@.map_values(|m: TopicMatcher| m@);
        assert(orig == before.clients[key].patterns);
        let ghost mut m: int = 0;
        let mut k: usize = 0;
        proof {
            reveal_with_fuel(Seq::<_>::filter, 1);
            assert(orig.take(0) =~= Seq::<Seq<char>>::empty());
            assert(pats@.map_values(|t: TopicMatcher| t@) =~= orig.take(0).filter(pred) + orig.skip(0));
        }
        while k < pats.len()
            invariant
                0 <= m <= orig.len(),
                k == orig.take(m).filter(pred).len(),
                pats@.map_values(|t: TopicMatcher| t@) == orig.take(m).filter(pred) + orig.skip(m),
                target@ == pattern@,
                pred == (other_than(pattern@)),
            decreases pats@.len() - k,
        {
            let ghost cur = pats@.map_values(|t: TopicMatcher| t@);
            proof {
                assert(orig.take(m).filter(pred).len() <= orig.take(m).len()) by {
                    orig.take(m).lemma_filter_len(pred);
                }
                assert(m < orig.len());
                assert(cur[k as int] == orig[m]);
                assert(orig.take(m + 1).drop_last() =~= orig.take(m));
                reveal_with_fuel(Seq::<_>::filter, 1);
            }
            if pats[k].has_pattern(&target) {
                pats.remove(k);
                proof {
                    assert(orig.take(m + 1).filter(pred) == orig.take(m).filter(pred));
                    assert(pats@.map_values(|t: TopicMatcher| t@) =~= cur.remove(k as int));
                    assert(cur.remove(k as int) =~= orig.take(m).filter(pred) + orig.skip(m + 1));
                    assert(pats@.map_values(|t: TopicMatcher| t@) =~= orig.take(m + 1).filter(pred)
                        + orig.skip(m + 1));
                    m = m + 1;
                }
            } else {
                proof {
                    assert(orig.take(m + 1).filter(pred) == orig.take(m).filter(pred).push(orig[m]));
                    assert(pats@.map_values(|t: TopicMatcher| t@) =~= orig.take(m + 1).filter(pred)
                        + orig.skip(m + 1));
                    m = m + 1;
                }
                k = k + 1;
            }
        }
        proof {
            let cur = pats@.map_values(|t: TopicMatcher| t@);
            assert(m == orig.len()) by {
                if m < orig.len() {
                    assert(cur.len() > k);
                }
            }
            assert(orig.take(m) =~= orig);
            assert(cur =~= orig.filter(pred));
        }
        info.patterns = pats;
        let ghost c = before.clients[key];
        assert(info@ == ClientState { patterns: c.patterns.filter(pred), ..c }) by {
            assert(info@.patterns =~= c.patterns.filter(pred));
        }
        self.clients.insert(key, info);
        proof {
            assert(self@.clients =~= before.clients.insert(
                key,
                ClientState { patterns: c.patterns.filter(other_than(pattern@)), ..c },
            ));
            assert(self@.clients.dom() =~= before.clients.dom());
        }
        Ok(())
    }

    /// Publishes a message: it is encoded (bincode) and written to the ring
    /// as the next record, then counted; see `BrokerState::publish`. A
    /// message without a timestamp is refused with `SerializationError`. The
    /// written bytes decode to the message's fields.
    pub fn publish(&mut self, message: Message) -> (res: Result<()>)
        requires
            old(self).wf(),
        ensures
            final(self).wf(),
            final(self).config() == old(self).config(),
            match message.timestamp {
                None => {
                    &&& res matches Err(e) && e@ == ErrorView::SerializationError(crate::wire::before_epoch_text())
                    &&& final(self)@ == old(self)@
                },
                Some(t) => {
                    let bytes = wire_bytes(
                        message.topic@,
                        message.payload@,
                        t.secs_since_epoch,
                        t.nanos_since_epoch,
                    );
                    &&& final(self)@ == old(self)@.publish(bytes).0
                    &&& match res {
                        Ok(()) => old(self)@.publish(bytes).1 == Ok::<(), ErrorView>(()),
                        Err(e) => old(self)@.publish(bytes).1 == Err::<(), ErrorView>(e@),
                    }
                    &&& bytes.len() == encoded_len(message)
                    &&& wire_fields(bytes) == Some(message_fields(message))
                },
            },
    {
        let bytes = match encode_message(&message) {
            Ok(b) => b,
            Err(e) => return Err(e),
        };
        let ghost ring_before = self.ring_buffer@;
        match self.ring_buffer.write(bytes.as_slice()) {
            Ok(()) => {},
            Err(e) => return Err(e),
        }
        proof {
            ring_buffer::lemma_put_len(ring_before.bytes, ring_before.write_pos as int, ring_buffer::record(ring_before.sequence, bytes@));
        }
        self.messages_published = self.messages_published.wrapping_add(1);
        Ok(())
    }

    /// Receives the next message for a client: see `BrokerState::receive`.
    pub fn receive(&mut self, client_id: &ClientId) -> (res: Result<Message>)
        requires
            old(self).wf(),
        ensures
            final(self).wf(),
            final(self).config() == old(self).config(),
            final(self)@ == old(self)@.receive(client_id@).0,
            match res {
                Ok(m) => {
                    &&& m.timestamp is Some
                    &&& old(self)@.receive(client_id@).1 == Ok::<MessageFields, ErrorView>(message_fields(m))
                },
                Err(e) => old(self)@.receive(client_id@).1 == Err::<MessageFields, ErrorView>(e@),
            },
    {
        let ghost before = self@;
        let key = client_id.as_u128();
        let read_pos = match self.clients.get(&key) {
            None => return Err(Error::ClientNotFound(client_id.as_str())),
            Some(info) => info.read_position,
        };
        let (data, new_pos) = match self.ring_buffer.read_message(read_pos) {
            Ok(r) => r,
            Err(e) => return Err(e),
        };
        let message = match decode_message(data.as_slice()) {
            Ok(m) => m,
            Err(e) => return Err(e),
        };
        let mut info = match self.clients.remove(&key) {
            Some(info) => info,
            None => return Err(Error::ClientNotFound(client_id.as_str())),
        };
        let matched = any_matches(&info.patterns, message.topic.name());
        info.read_position = new_pos;
        let ghost c = before.clients[key];
        assert(info@ == ClientState { read_position: new_pos, ..c });
        self.clients.insert(key, info);
        proof {
            assert(self@.clients =~= before.clients.insert(key, ClientState { read_position: new_pos, ..c }));
            assert(self@.clients.dom() =~= before.clients.dom());
        }
        if matched {
            self.messages_delivered = self.messages_delivered.wrapping_add(1);
            Ok(message)
        } else {
            Err(Error::BufferEmpty)
        }
    }

    /// The broker's statistics: see `BrokerStats`.
    pub fn stats(&self) -> (res: BrokerStats)
        requires
            self.wf(),
        ensures
            res.connected_clients == self@.clients.len(),
            res.total_subscriptions == (if subscription_count(self@.clients) <= usize::MAX {
                subscription_count(self@.clients)
            } else {
                usize::MAX as int
            }),
            res.messages_published == self@.messages_published,
            res.messages_delivered == self@.messages_delivered,
            res.buffer_used == self@.ring.write_pos,
            res.buffer_size == self@.ring.bytes.len(),
    {
        let ghost cs = self@.clients;
        let ghost f = add_subscriptions(cs);
        proof {
            self.lemma_registry_size();
        }
        let ghost mut seen: Set<u128> = Set::empty();
        let mut total: usize = 0;
        proof {
            vstd::set::fold::lemma_fold_empty(0int, f);
        }
        for (key, info) in it: self.clients.iter()
            invariant
                cs == self@.clients,
                f == add_subscriptions(cs),
                it.seq() == vstd::std_specs::hash::spec_hash_map_iter(&self.clients).remaining(),
                it.seq().no_duplicates(),
                seen.finite(),
                forall|q: u128| seen.contains(q) <==> exists|j: int| 0 <= j < it.index() && *it.seq()[j].0 == q,
                total == (if seen.fold(0int, f) <= usize::MAX {
                    seen.fold(0int, f)
                } else {
                    usize::MAX as int
                }),
        {
            let ghost idx = it.index();
            let ghost v = it.seq();
            proof {
                assert(v[idx] == (key, info));
                assert(self.clients@.contains_key(*key) && self.clients@[*key] == *info);
                assert(!seen.contains(*key)) by {
                    if seen.contains(*key) {
                        let j = choose|j: int| 0 <= j < idx && *v[j].0 == *key;
                        assert(self.clients@[*v[j].0] == *v[j].1);
                        assert(v[j] == v[idx]);
                    }
                }
                assert(vstd::set::fold::is_fun_commutative(f));
                vstd::set::fold::lemma_fold_insert(seen, 0int, f, *key);
                assert(cs[*key].patterns.len() == info.patterns@.len());
            }
            let n = info.patterns.len();
            total = if total > usize::MAX - n { usize::MAX } else { total + n };
            proof {
                seen = seen.insert(*key);
                assert forall|q: u128| seen.contains(q) <==> exists|j: int| 0 <= j < idx + 1 && *v[j].0 == q by {
                    if q == *key {
                        assert(*v[idx].0 == q);
                    }
                }
            }
        }
        proof {
            let v = vstd::std_specs::hash::spec_hash_map_iter(&self.clients).remaining();
            assert(seen =~= cs.dom()) by {
                assert forall|q: u128| seen.contains(q) implies cs.dom().contains(q) by {
                    let j = choose|j: int| 0 <= j < v.len() && *v[j].0 == q;
                    assert(self.clients@.contains_key(*v[j].0));
                }
                assert forall|q: u128| cs.dom().contains(q) implies seen.contains(q) by {
                    assert(self.clients@.contains_key(q));
                    assert(v.contains((&q, &self.clients@[q])));
                    let j = choose|j: int| 0 <= j < v.len() && v[j] == (&q, &self.clients@[q]);
                    assert(*v[j].0 == q);
                }
            }
        }
        BrokerStats {
            connected_clients: self.clients.len(),
            total_subscriptions: total,
            messages_published: self.messages_published,
            messages_delivered: self.messages_delivered,
            buffer_used: self.ring_buffer.used_bytes(),
            buffer_size: self.ring_buffer.size(),
        }
    }

    /// The current write position of the ring.
    pub fn debug_write_pos(&self) -> (res: usize)
        ensures
            res == self@.ring.write_pos,
    {
        self.ring_buffer.write_pos()
    }

    /// The oldest position any reader may read from: the start of the ring.
    pub fn debug_read_pos(&self) -> (res: usize)
        ensures
            res == 0,
    {
        self.ring_buffer.oldest_read_pos()
    }

    /// The configured buffer size.
    pub fn debug_buffer_size(&self) -> (res: usize)
        ensures
            res == self.config().buffer_size,
    {
        self.config.buffer_size
    }

    /// The region that holds the broker's ring: metadata block, then the ring
    /// data (see `ring_buffer::region_of`).
    pub fn region(&self) -> (res: Vec<u8>)
        requires
            self.wf(),
        ensures
            res@ == ring_buffer::region_of(self@.ring),
    {
        self.ring_buffer.region()
    }

    /// Takes the ring from `region` again (as another process left it),
    /// keeping the registry and the counters; the region is opened without
    /// initializing, with the configured buffer size. Where it does not open,
    /// nothing changes.
    pub fn load_region(&mut self, region: &[u8]) -> (res: Result<()>)
        requires
            old(self).wf(),
        ensures
            final(self).wf(),
            final(self).config() == old(self).config(),
            match ring_buffer::open_result(region@, old(self).config().buffer_size, false) {
                Ok(r) => res is Ok && final(self)@ == (BrokerState { ring: r, ..old(self)@ }),
                Err(expected) => res matches Err(e) && e@ == expected && final(self)@ == old(self)@,
            },
    {
        match RingBuffer::from_raw_parts(region, self.config.buffer_size, false) {
            Ok(r) => {
                self.ring_buffer = r;
                Ok(())
            },
            Err(e) => Err(e),
        }
    }
}

} // verus!
