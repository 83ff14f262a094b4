//! Clients of a broker: a publisher and a subscriber, each acting for one
//! registered client id.
use vstd::prelude::*;

use crate::broker::ring_buffer::{
    lemma_records_len_prefix, lemma_writes_position, lemma_writes_read_back, read_result,
    record_fits, records_len, state_after_write, writes, RECORD_HEADER_LEN,
};
use crate::broker::{
    any_pattern_matches, counter_after, lemma_counter_step, lemma_same_patterns_same_count, message_fields,
    subscription_count, Broker, BrokerState, ClientState, MessageFields,
};
use crate::error::{Error, ErrorView, Result};
use crate::wire::{before_epoch_text, decoded_fields, wire_bytes};
use crate::{ClientId, Message, Topic};

verus! {

/// The broker after each of the encoded messages `encoded` has been
/// published in turn.
pub open spec fn publish_all(s: BrokerState, encoded: Seq<Seq<u8>>) -> BrokerState
    decreases encoded.len(),
{
    if encoded.len() == 0 {
        s
    } else {
        publish_all(s, encoded.drop_last()).publish(encoded.last()).0
    }
}

/// Each of the encoded messages `encoded`, published in turn from `s`,
/// was accepted by the broker.
pub open spec fn all_published(s: BrokerState, encoded: Seq<Seq<u8>>) -> bool
    decreases encoded.len(),
{
    if encoded.len() == 0 {
        true
    } else {
        &&& all_published(s, encoded.drop_last())
        &&& publish_all(s, encoded.drop_last()).publish(encoded.last()).1 is Ok
    }
}

/// `bytes` encode a message with this topic and payload, stamped with some
/// reading of the clock.
pub open spec fn stamped_encoding(bytes: Seq<u8>, topic: Seq<char>, payload: Seq<u8>) -> bool {
    exists|secs: u64, nanos: u32|
        {
            &&& nanos < 1_000_000_000
            &&& bytes == #[trigger] wire_bytes(topic, payload, secs, nanos)
        }
}

/// The encoded messages `encoded` are the first `encoded.len()` pairs of
/// `batch`, each stamped with some reading of the clock.
pub open spec fn encodes_batch(encoded: Seq<Seq<u8>>, batch: Seq<(Seq<char>, Seq<u8>)>) -> bool {
    &&& encoded.len() <= batch.len()
    &&& forall|j: int|
        0 <= j < encoded.len() ==> stamped_encoding(#[trigger] encoded[j], batch[j].0, batch[j].1)
}

/// The topics and payloads of a batch.
pub open spec fn batch_view(messages: Seq<(&Topic, &[u8])>) -> Seq<(Seq<char>, Seq<u8>)> {
    messages.map_values(|m: (&Topic, &[u8])| (m.0@, m.1@))
}

/// A client that publishes messages to topics.
#[derive(Debug, Clone, Copy)]
pub struct Publisher {
    client_id: ClientId,
}

impl Publisher {
    /// Creates a publisher acting for `client_id`.
    pub fn new(client_id: ClientId) -> (res: Self)
        ensures
            res.client_id() == client_id,
    {
        Publisher { client_id }
    }

    /// The client this publisher acts for.
    pub closed spec fn client_id(&self) -> ClientId {
        self.client_id
    }

    /// Publishes `payload` to `topic`, stamped with the current time: see
    /// `Broker::publish`. Where the clock reads earlier than the UNIX epoch
    /// the message is refused with `SerializationError`.
    pub fn publish(&self, broker: &mut Broker, topic: &Topic, payload: &[u8]) -> (res: Result<()>)
        requires
            old(broker).wf(),
        ensures
            final(broker).wf(),
            final(broker).config() == old(broker).config(),
            match res {
                Ok(()) => exists|bytes: Seq<u8>|
                    {
                        &&& #[trigger] stamped_encoding(bytes, topic@, payload@)
                        &&& old(broker)@.publish(bytes) == (final(broker)@, Ok::<(), ErrorView>(()))
                    },
                Err(e) => {
                    &&& final(broker)@ == old(broker)@
                    &&& (e@ == ErrorView::SerializationError(before_epoch_text()) || (e@
                        == ErrorView::BufferFull && !record_fits(
                        old(broker)@.ring.bytes.len() as int,
                        28 + vstd::utf8::encode_utf8(topic@).len() as int + payload@.len() as int,
                    )))
                },
            },
            record_fits(
                old(broker)@.ring.bytes.len() as int,
                28 + vstd::utf8::encode_utf8(topic@).len() as int + payload@.len() as int,
            ) ==> (res is Ok || (res matches Err(e) && e@ == ErrorView::SerializationError(
                before_epoch_text(),
            ))),
    {
        let mut data: Vec<u8> = Vec::new();
        data.extend_from_slice(payload);
        let message = Message::new(topic.clone(), data);
        let ghost stamp = message.timestamp;
        assert(message.topic@ == topic@ && message.payload@ == payload@);
        let res = broker.publish(message);
        proof {
            if res is Ok {
                assert(stamp is Some);
                let t = stamp->Some_0;
                let bytes = wire_bytes(topic@, payload@, t.secs_since_epoch, t.nanos_since_epoch);
                assert(stamped_encoding(bytes, topic@, payload@));
                assert(old(broker)@.publish(bytes) == (broker@, Ok::<(), ErrorView>(())));
            }
        }
        res
    }

    /// Publishes the pairs of `messages` in order, stopping at the first that
    /// fails and returning its error; every pair before it is published, and
    /// none after it is tried.
    pub fn publish_batch(&self, broker: &mut Broker, messages: &[(&Topic, &[u8])]) -> (res: Result<()>)
        requires
            old(broker).wf(),
        ensures
            final(broker).wf(),
            final(broker).config() == old(broker).config(),
            exists|encoded: Seq<Seq<u8>>|
                {
                    &&& #[trigger] encodes_batch(encoded, batch_view(messages@))
                    &&& final(broker)@ == publish_all(old(broker)@, encoded)
                    &&& all_published(old(broker)@, encoded)
                    &&& (res is Ok <==> encoded.len() == messages@.len())
                    &&& (res matches Err(e) ==> {
                        let (topic, payload) = batch_view(messages@)[encoded.len() as int];
                        ||| e@ == ErrorView::SerializationError(before_epoch_text())
                        ||| e@ == ErrorView::BufferFull && !record_fits(
                            old(broker)@.ring.bytes.len() as int,
                            28 + vstd::utf8::encode_utf8(topic).len() as int + payload.len() as int,
                        )
                    })
                },
    {
        let ghost batch = batch_view(messages@);
        let ghost start = broker@;
        let ghost mut encoded: Seq<Seq<u8>> = Seq::empty();
        let mut i: usize = 0;
        assert(encodes_batch(encoded, batch));
        while i < messages.len()
            invariant
                broker.wf(),
                old(broker).wf(),
                broker.config() == old(broker).config(),
                batch == batch_view(messages@),
                start == old(broker)@,
                i <= messages@.len(),
                encoded.len() == i,
                encodes_batch(encoded, batch),
                broker@ == publish_all(start, encoded),
                all_published(start, encoded),
            decreases messages@.len() - i,
        {
            let (topic, payload) = messages[i];
            match self.publish(broker, topic, payload) {
                Ok(()) => {
                    proof {
                        let bytes = choose|bytes: Seq<u8>|
                            {
                                &&& #[trigger] stamped_encoding(bytes, topic@, payload@)
                                &&& publish_all(start, encoded).publish(bytes) == (broker@, Ok::<(), ErrorView>(()))
                            };
                        let next = encoded.push(bytes);
                        assert(next.drop_last() =~= encoded);
                        assert(batch[i as int] == (topic@, payload@));
                        assert forall|j: int| 0 <= j < next.len() implies stamped_encoding(
                            #[trigger] next[j],
                            batch[j].0,
                            batch[j].1,
                        ) by {
                            if j < i {
                                assert(next[j] == encoded[j]);
                            }
                        }
                        assert(encodes_batch(next, batch));
                        assert(all_published(start, next));
                        encoded = next;
                    }
                },
                Err(e) => {
                    proof {
                        broker.lemma_wf();
                        old(broker).lemma_wf();
                        assert(batch[i as int] == (topic@, payload@));
                    }
                    assert(encodes_batch(encoded, batch));
                    return Err(e);
                },
            }
            i = i + 1;
        }
        Ok(())
    }
}

/// A run of publishes whose records together are shorter than the ring:
/// every one is accepted, the ring holds their records in turn, the count
/// of published messages grows by their number, and nothing else changes.
pub proof fn lemma_publish_run(s: BrokerState, encoded: Seq<Seq<u8>>)
    requires
        s.inv(),
        s.ring.bytes.len() <= usize::MAX,
        records_len(encoded) < s.ring.bytes.len(),
    ensures
        all_published(s, encoded),
        publish_all(s, encoded) == (BrokerState {
            ring: writes(s.ring, encoded),
            messages_published: counter_after(s.messages_published, encoded.len() as int),
            ..s
        }),
    decreases encoded.len(),
{
    if encoded.len() == 0 {
        vstd::arithmetic::div_mod::lemma_small_mod(s.messages_published as nat, 0x1_0000_0000_0000_0000nat);
    } else {
        let qs = encoded.drop_last();
        let last = encoded.last();
        lemma_records_len_prefix(encoded, qs.len() as int);
        assert(encoded.take(qs.len() as int) =~= qs);
        lemma_records_len_prefix(qs, 0);
        assert(qs.take(0) =~= Seq::<Seq<u8>>::empty());
        assert(records_len(encoded) == records_len(qs) + RECORD_HEADER_LEN + last.len());
        lemma_publish_run(s, qs);
        lemma_writes_position(s.ring, qs);
        lemma_counter_step(s.messages_published, qs.len() as int);
        let mid = publish_all(s, qs);
        assert(record_fits(mid.ring.bytes.len() as int, last.len() as int));
        assert(mid.publish(last).1 is Ok);
        assert(publish_all(s, encoded) == mid.publish(last).0);
        assert(writes(s.ring, encoded) == state_after_write(writes(s.ring, qs), last));
    }
}

/// The broker after `id` has received `k` times in turn.
pub open spec fn receive_times(s: BrokerState, id: u128, k: nat) -> BrokerState
    decreases k,
{
    if k == 0 {
        s
    } else {
        receive_times(s, id, (k - 1) as nat).receive(id).0
    }
}

/// How many of the first `k` messages of `fields` some pattern of
/// `patterns` matches.
pub open spec fn matched_count(patterns: Seq<Seq<char>>, fields: Seq<MessageFields>, k: nat) -> int
    decreases k,
{
    if k == 0 {
        0
    } else {
        matched_count(patterns, fields, (k - 1) as nat) + if any_pattern_matches(
            patterns,
            fields[k - 1].0,
        ) {
            1int
        } else {
            0int
        }
    }
}

/// Where a run of receives stands after `k` of them: `t` holds the
/// published records, the registry keeps its clients and their patterns,
/// the client `id` reads next from where the `k`-th record ends, and the
/// counters have grown by the messages published and the `k` receives'
/// deliveries.
pub open spec fn run_at(
    s: BrokerState,
    encoded: Seq<Seq<u8>>,
    fields: Seq<MessageFields>,
    id: u128,
    k: nat,
    t: BrokerState,
) -> bool {
    &&& t.ring == writes(s.ring, encoded)
    &&& t.clients.dom() == s.clients.dom()
    &&& t.clients.dom().finite()
    &&& t.clients.contains_key(id)
    &&& (forall|c: u128| #[trigger] t.clients.contains_key(c) ==> t.clients[c].patterns == s.clients[c].patterns)
    &&& t.clients[id].read_position == writes(s.ring, encoded.take(k as int)).write_pos
    &&& subscription_count(t.clients) == subscription_count(s.clients)
    &&& t.messages_published == counter_after(s.messages_published, encoded.len() as int)
    &&& t.messages_delivered == counter_after(
        s.messages_delivered,
        matched_count(s.clients[id].patterns, fields, k),
    )
}

proof fn lemma_receive_step(
    s: BrokerState,
    encoded: Seq<Seq<u8>>,
    fields: Seq<MessageFields>,
    id: u128,
    j: nat,
    prev: BrokerState,
)
    requires
        run_at(s, encoded, fields, id, j, prev),
        j < encoded.len(),
        j < fields.len(),
        s.clients.contains_key(id),
        read_result(writes(s.ring, encoded), writes(s.ring, encoded.take(j as int)).write_pos)
            == Ok::<(Seq<u8>, usize), ErrorView>(
            (encoded[j as int], writes(s.ring, encoded.take(j + 1int)).write_pos),
        ),
        decoded_fields(encoded[j as int]) == Some(fields[j as int]),
    ensures
        run_at(s, encoded, fields, id, j + 1, prev.receive(id).0),
        prev.receive(id).1 == if any_pattern_matches(s.clients[id].patterns, fields[j as int].0) {
            Ok::<MessageFields, ErrorView>(fields[j as int])
        } else {
            Err::<MessageFields, ErrorView>(ErrorView::BufferEmpty)
        },
{
    let c = prev.clients[id];
    let t = prev.receive(id).0;
    let next = writes(s.ring, encoded.take(j + 1int)).write_pos;
    assert(c.patterns == s.clients[id].patterns);
    assert(t.clients == prev.clients.insert(id, ClientState { read_position: next, ..c }));
    assert(t.clients.dom() =~= prev.clients.dom());
    assert forall|q: u128| #[trigger] t.clients.contains_key(q) implies t.clients[q].patterns
        == prev.clients[q].patterns by {}
    lemma_same_patterns_same_count(prev.clients, t.clients);
    assert(matched_count(s.clients[id].patterns, fields, j + 1) == matched_count(
        s.clients[id].patterns,
        fields,
        j,
    ) + if any_pattern_matches(s.clients[id].patterns, fields[j as int].0) {
        1int
    } else {
        0int
    });
    if any_pattern_matches(c.patterns, fields[j as int].0) {
        lemma_matched_count_nonneg(s.clients[id].patterns, fields, j);
        lemma_counter_step(s.messages_delivered, matched_count(s.clients[id].patterns, fields, j));
    }
}

proof fn lemma_matched_count_nonneg(patterns: Seq<Seq<char>>, fields: Seq<MessageFields>, k: nat)
    ensures
        0 <= matched_count(patterns, fields, k) <= k,
    decreases k,
{
    if k > 0 {
        lemma_matched_count_nonneg(patterns, fields, (k - 1) as nat);
    }
}

/// The run of receives after a run of publishes, up to `k` receives.
proof fn lemma_run_step(s: BrokerState, encoded: Seq<Seq<u8>>, fields: Seq<MessageFields>, id: u128, k: nat)
    requires
        s.inv(),
        s.ring.bytes.len() <= usize::MAX,
        encoded.len() == fields.len(),
        forall|j: int|
            0 <= j < encoded.len() ==> 0 < #[trigger] encoded[j].len() <= u32::MAX && decoded_fields(
                encoded[j],
            ) == Some(fields[j]),
        records_len(encoded) < s.ring.bytes.len(),
        s.clients.contains_key(id),
        s.clients[id].read_position == s.ring.write_pos,
        k <= encoded.len(),
    ensures
        run_at(s, encoded, fields, id, k, receive_times(publish_all(s, encoded), id, k)),
    decreases k,
{
    let p = publish_all(s, encoded);
    if k == 0 {
        lemma_publish_run(s, encoded);
        assert(encoded.take(0) =~= Seq::<Seq<u8>>::empty());
        vstd::arithmetic::div_mod::lemma_small_mod(s.messages_delivered as nat, 0x1_0000_0000_0000_0000nat);
    } else {
        let j = (k - 1) as nat;
        lemma_run_step(s, encoded, fields, id, j);
        lemma_writes_read_back(s.ring, encoded);
        assert(read_result(writes(s.ring, encoded), writes(s.ring, encoded.take(j as int)).write_pos)
            == Ok::<(Seq<u8>, usize), ErrorView>(
            (encoded[j as int], writes(s.ring, encoded.take(j + 1int)).write_pos),
        ));
        assert(decoded_fields(encoded[j as int]) == Some(fields[j as int]));
        lemma_receive_step(s, encoded, fields, id, j, receive_times(p, id, j));
    }
}

/// A run of publishes, then a run of receives by a client that had read
/// everything there was: the `k`-th receive gives the `k`-th message
/// published where one of the client's patterns matches its topic and
/// `BufferEmpty` where none does, each moving the client on to the next
/// record; a receive after the last gives `BufferEmpty` and changes nothing.
/// Along the way the registry keeps its clients and their patterns (so the
/// subscription count stays), the published count grows by the messages
/// published, and the delivered count by the messages delivered. (The
/// records together must be shorter than the ring; empty messages and
/// lengths past a `u32` are left out.)
pub proof fn lemma_publish_then_receive_run(
    s: BrokerState,
    encoded: Seq<Seq<u8>>,
    fields: Seq<MessageFields>,
    id: u128,
)
    requires
        s.inv(),
        s.ring.bytes.len() <= usize::MAX,
        encoded.len() == fields.len(),
        forall|j: int|
            0 <= j < encoded.len() ==> 0 < #[trigger] encoded[j].len() <= u32::MAX && decoded_fields(
                encoded[j],
            ) == Some(fields[j]),
        records_len(encoded) < s.ring.bytes.len(),
        s.clients.contains_key(id),
        s.clients[id].read_position == s.ring.write_pos,
    ensures
        all_published(s, encoded),
        forall|k: nat|
            k <= encoded.len() ==> run_at(
                s,
                encoded,
                fields,
                id,
                k,
                #[trigger] receive_times(publish_all(s, encoded), id, k),
            ),
        forall|k: nat|
            k < encoded.len() ==> (#[trigger] receive_times(publish_all(s, encoded), id, k)).receive(
                id,
            ).1 == if any_pattern_matches(s.clients[id].patterns, fields[k as int].0) {
                Ok::<MessageFields, ErrorView>(fields[k as int])
            } else {
                Err::<MessageFields, ErrorView>(ErrorView::BufferEmpty)
            },
        receive_times(publish_all(s, encoded), id, encoded.len() as nat).receive(id) == (
            receive_times(publish_all(s, encoded), id, encoded.len() as nat),
            Err::<MessageFields, ErrorView>(ErrorView::BufferEmpty),
        ),
{
    lemma_publish_run(s, encoded);
    let p = publish_all(s, encoded);
    assert forall|k: nat| k <= encoded.len() implies run_at(
        s,
        encoded,
        fields,
        id,
        k,
        #[trigger] receive_times(p, id, k),
    ) by {
        lemma_run_step(s, encoded, fields, id, k);
    }
    assert forall|k: nat| k < encoded.len() implies (#[trigger] receive_times(p, id, k)).receive(id).1
        == if any_pattern_matches(s.clients[id].patterns, fields[k as int].0) {
        Ok::<MessageFields, ErrorView>(fields[k as int])
    } else {
        Err::<MessageFields, ErrorView>(ErrorView::BufferEmpty)
    } by {
        lemma_run_step(s, encoded, fields, id, k);
        lemma_writes_read_back(s.ring, encoded);
        assert(read_result(writes(s.ring, encoded), writes(s.ring, encoded.take(k as int)).write_pos)
            == Ok::<(Seq<u8>, usize), ErrorView>(
            (encoded[k as int], writes(s.ring, encoded.take(k + 1int)).write_pos),
        ));
        lemma_receive_step(s, encoded, fields, id, k, receive_times(p, id, k));
    }
    let n = encoded.len() as nat;
    lemma_run_step(s, encoded, fields, id, n);
    lemma_writes_read_back(s.ring, encoded);
    assert(encoded.take(n as int) =~= encoded);
}

/// What one receive attempt amounts to for a waiting subscriber.
#[derive(Debug)]
pub enum Poll {
    /// A message was delivered.
    Delivered(Message),
    /// No matching message was there (`BufferEmpty`): try again later.
    Retry,
    /// Receiving failed for another reason.
    Failed(Error),
}

/// A client that subscribes to topic patterns and receives messages.
#[derive(Debug, Clone, Copy)]
pub struct Subscriber {
    client_id: ClientId,
}

/// What receiving up to `max` messages gives: each receive in turn until
/// `max` messages were delivered, the ring yields `BufferEmpty` (which ends
/// the batch without error) or another error (which fails it).
pub open spec fn receive_batch_result(s: BrokerState, id: u128, max: nat) -> (BrokerState, core::result::Result<Seq<MessageFields>, ErrorView>)
    decreases max,
{
    if max == 0 {
        (s, Ok(Seq::empty()))
    } else {
        let (s1, r) = s.receive(id);
        match r {
            Ok(f) => {
                let (s2, rest) = receive_batch_result(s1, id, (max - 1) as nat);
                match rest {
                    Ok(fs) => (s2, Ok(seq![f] + fs)),
                    Err(e) => (s2, Err(e)),
                }
            },
            Err(ErrorView::BufferEmpty) => (s1, Ok(Seq::empty())),
            Err(e) => (s1, Err(e)),
        }
    }
}

/// A batch never holds more than the messages asked for.
pub proof fn lemma_batch_at_most_max(s: BrokerState, id: u128, max: nat)
    ensures
        receive_batch_result(s, id, max).1 matches Ok(fs) ==> fs.len() <= max,
    decreases max,
{
    if max > 0 {
        let (s1, r) = s.receive(id);
        lemma_batch_at_most_max(s1, id, (max - 1) as nat);
    }
}

/// A batch stops short only where a receive answers `BufferEmpty` or
/// fails. Asked for one message more than a batch that delivered all it
/// was asked for, the batch goes on with the next receive: its message is
/// added at the end, `BufferEmpty` ends the batch as it is, and an error
/// fails it. A batch that delivered fewer than asked, or failed, is the
/// same however many more are asked for.
pub proof fn lemma_batch_one_more(s: BrokerState, id: u128, max: nat)
    ensures
        receive_batch_result(s, id, 0) == (s, Ok::<Seq<MessageFields>, ErrorView>(Seq::empty())),
        ({
            let (t, r) = receive_batch_result(s, id, max);
            match r {
                Ok(fs) => if fs.len() == max {
                    receive_batch_result(s, id, max + 1) == match t.receive(id) {
                        (t2, Ok(f)) => (t2, Ok::<Seq<MessageFields>, ErrorView>(fs.push(f))),
                        (t2, Err(ErrorView::BufferEmpty)) => (t2, Ok::<Seq<MessageFields>, ErrorView>(fs)),
                        (t2, Err(e)) => (t2, Err::<Seq<MessageFields>, ErrorView>(e)),
                    }
                } else {
                    receive_batch_result(s, id, max + 1) == (t, Ok::<Seq<MessageFields>, ErrorView>(fs))
                },
                Err(e) => receive_batch_result(s, id, max + 1) == (t, Err::<Seq<MessageFields>, ErrorView>(e)),
            }
        }),
    decreases max,
{
    let (s1, r) = s.receive(id);
    if max == 0 {
        assert(receive_batch_result(s1, id, 0) == (s1, Ok::<Seq<MessageFields>, ErrorView>(Seq::empty())));
        if r is Ok {
            assert(seq![r->Ok_0] + Seq::<MessageFields>::empty() =~= Seq::<MessageFields>::empty().push(r->Ok_0));
        }
    } else {
        match r {
            Ok(f) => {
                lemma_batch_one_more(s1, id, (max - 1) as nat);
                let (t1, r1) = receive_batch_result(s1, id, (max - 1) as nat);
                assert((max - 1) as nat + 1 == max);
                match r1 {
                    Ok(fs1) => {
                        if fs1.len() == max - 1 {
                            match t1.receive(id) {
                                (t2, Ok(g)) => {
                                    assert(seq![f] + fs1.push(g) =~= (seq![f] + fs1).push(g));
                                },
                                _ => {},
                            }
                        }
                    },
                    Err(_) => {},
                }
            },
            Err(_) => {},
        }
    }
}

impl Subscriber {
    /// Creates a subscriber acting for `client_id`.
    pub fn new(client_id: ClientId) -> (res: Self)
        ensures
            res.client_id() == client_id,
    {
        Subscriber { client_id }
    }

    /// The client this subscriber acts for.
    pub closed spec fn client_id(&self) -> ClientId {
        self.client_id
    }

    /// Subscribes to a topic pattern: see `Broker::subscribe`.
    pub fn subscribe(&self, broker: &mut Broker, pattern: &str) -> (res: Result<()>)
        requires
            old(broker).wf(),
        ensures
            final(broker).wf(),
            final(broker).config() == old(broker).config(),
            final(broker)@ == old(broker)@.subscribe(self.client_id()@, pattern@).0,
            match res {
                Ok(()) => old(broker)@.subscribe(self.client_id()@, pattern@).1 == Ok::<(), ErrorView>(()),
                Err(e) => old(broker)@.subscribe(self.client_id()@, pattern@).1 == Err::<(), ErrorView>(e@),
            },
    {
        broker.subscribe(&self.client_id, pattern)
    }

    /// Unsubscribes from a topic pattern: see `Broker::unsubscribe`.
    pub fn unsubscribe(&self, broker: &mut Broker, pattern: &str) -> (res: Result<()>)
        requires
            old(broker).wf(),
        ensures
            final(broker).wf(),
            final(broker).config() == old(broker).config(),
            final(broker)@ == old(broker)@.unsubscribe(self.client_id()@, pattern@).0,
            match res {
                Ok(()) => old(broker)@.unsubscribe(self.client_id()@, pattern@).1 == Ok::<(), ErrorView>(()),
                Err(e) => old(broker)@.unsubscribe(self.client_id()@, pattern@).1 == Err::<(), ErrorView>(e@),
            },
    {
        broker.unsubscribe(&self.client_id, pattern)
    }

    /// Receives one message: see `Broker::receive`.
    pub fn receive(&self, broker: &mut Broker) -> (res: Result<Message>)
        requires
            old(broker).wf(),
        ensures
            final(broker).wf(),
            final(broker).config() == old(broker).config(),
            final(broker)@ == old(broker)@.receive(self.client_id()@).0,
            match res {
                Ok(m) => {
                    &&& m.timestamp is Some
                    &&& old(broker)@.receive(self.client_id()@).1 == Ok::<MessageFields, ErrorView>(message_fields(m))
                },
                Err(e) => old(broker)@.receive(self.client_id()@).1 == Err::<MessageFields, ErrorView>(e@),
            },
    {
        broker.receive(&self.client_id)
    }

    /// One receive attempt, classified: a delivered message, `Retry` where
    /// the answer was `BufferEmpty`, or the failure.
    pub fn poll(&self, broker: &mut Broker) -> (res: Poll)
        requires
            old(broker).wf(),
        ensures
            final(broker).wf(),
            final(broker).config() == old(broker).config(),
            final(broker)@ == old(broker)@.receive(self.client_id()@).0,
            match res {
                Poll::Delivered(m) => old(broker)@.receive(self.client_id()@).1 == Ok::<MessageFields, ErrorView>(message_fields(m)),
                Poll::Retry => old(broker)@.receive(self.client_id()@).1 == Err::<MessageFields, ErrorView>(ErrorView::BufferEmpty),
                Poll::Failed(e) => e@ != ErrorView::BufferEmpty && old(broker)@.receive(self.client_id()@).1
                    == Err::<MessageFields, ErrorView>(e@),
            },
    {
        match self.receive(broker) {
            Ok(m) => Poll::Delivered(m),
            Err(Error::BufferEmpty) => Poll::Retry,
            Err(e) => Poll::Failed(e),
        }
    }

    /// Receives up to `max_messages` messages: see `receive_batch_result`.
    pub fn receive_batch(&self, broker: &mut Broker, max_messages: usize) -> (res: Result<Vec<Message>>)
        requires
            old(broker).wf(),
        ensures
            final(broker).wf(),
            final(broker).config() == old(broker).config(),
            final(broker)@ == receive_batch_result(old(broker)@, self.client_id()@, max_messages as nat).0,
            match res {
                Ok(ms) => receive_batch_result(old(broker)@, self.client_id()@, max_messages as nat).1
                    == Ok::<Seq<MessageFields>, ErrorView>(ms@.map_values(|m: Message| message_fields(m))),
                Err(e) => receive_batch_result(old(broker)@, self.client_id()@, max_messages as nat).1
                    == Err::<Seq<MessageFields>, ErrorView>(e@),
            },
    {
        let ghost id = self.client_id()@;
        let ghost target = receive_batch_result(old(broker)@, id, max_messages as nat);
        let mut messages: Vec<Message> = Vec::new();
        let mut i: usize = 0;
        while i < max_messages
            invariant
                broker.wf(),
                broker.config() == old(broker).config(),
                id == self.client_id()@,
                i <= max_messages,
                messages@.len() == i,
                target == receive_batch_result(old(broker)@, id, max_messages as nat),
                ({
                    let rest = receive_batch_result(broker@, id, (max_messages - i) as nat);
                    &&& target.0 == rest.0
                    &&& match rest.1 {
                        Ok(fs) => target.1 == Ok::<Seq<MessageFields>, ErrorView>(
                            messages@.map_values(|m: Message| message_fields(m)) + fs,
                        ),
                        Err(e) => target.1 == Err::<Seq<MessageFields>, ErrorView>(e),
                    }
                }),
            decreases max_messages - i,
        {
            let ghost before = broker@;
            match self.receive(broker) {
                Ok(message) => {
                    proof {
                        let f = message_fields(message);
                        let rest = receive_batch_result(broker@, id, (max_messages - i - 1) as nat);
                        assert(receive_batch_result(before, id, (max_messages - i) as nat) == (
                            rest.0,
                            match rest.1 {
                                Ok(fs) => Ok(seq![f] + fs),
                                Err(e) => Err(e),
                            },
                        ));
                    }
                    let ghost old_msgs = messages@.map_values(|m: Message| message_fields(m));
                    messages.push(message);
                    proof {
                        let f = message_fields(message);
                        assert(messages@.map_values(|m: Message| message_fields(m)) =~= old_msgs.push(f));
                        let rest = receive_batch_result(broker@, id, (max_messages - i - 1) as nat);
                        if rest.1 is Ok {
                            assert(old_msgs + (seq![f] + rest.1->Ok_0) =~= old_msgs.push(f) + rest.1->Ok_0);
                        }
                    }
                },
                Err(Error::BufferEmpty) => {
                    proof {
                        assert(receive_batch_result(before, id, (max_messages - i) as nat) == (
                            broker@,
                            Ok::<Seq<MessageFields>, ErrorView>(Seq::empty()),
                        ));
                        assert(messages@.map_values(|m: Message| message_fields(m)) + Seq::<MessageFields>::empty()
                            =~= messages@.map_values(|m: Message| message_fields(m)));
                    }
                    return Ok(messages);
                },
                Err(e) => {
                    proof {
                        let expected = before.receive(id).1->Err_0;
                        assert(receive_batch_result(before, id, (max_messages - i) as nat) == (
                            broker@,
                            Err::<Seq<MessageFields>, ErrorView>(expected),
                        ));
                    }
                    return Err(e);
                },
            }
            i = i + 1;
        }
        proof {
            assert(receive_batch_result(broker@, id, 0) == (broker@, Ok::<Seq<MessageFields>, ErrorView>(Seq::empty())));
            assert(messages@.map_values(|m: Message| message_fields(m)) + Seq::<MessageFields>::empty()
                =~= messages@.map_values(|m: Message| message_fields(m)));
        }
        Ok(messages)
    }
}

} // verus!
