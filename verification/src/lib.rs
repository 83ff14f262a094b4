//! A shared-memory publish/subscribe broker: topic pattern matching, a
//! ring buffer of length-prefixed records, and a client registry.

pub mod broker;
pub mod client;
pub mod error;
pub mod topic;
pub mod wire;

pub use broker::Broker;
pub use client::{Publisher, Subscriber};
pub use error::{Error, ErrorView, Result};

use vstd::prelude::*;

verus! {

/// Maximum length of a topic name, in bytes.
pub const MAX_TOPIC_LENGTH: usize = 256;

/// Configuration for creating a new broker.
#[derive(Debug, Clone)]
pub struct BrokerConfig {
    /// Name of the shared memory segment
    pub name: String,
    /// Size of the ring buffer in bytes
    pub buffer_size: usize,
    /// Maximum number of clients that can be registered at once
    pub max_clients: usize,
    /// Maximum subscriptions per client
    pub max_subscriptions_per_client: usize,
}

impl Default for BrokerConfig {
    /// A segment named "roker" with a 64 MiB ring, 1000 clients and 100
    /// subscriptions per client.
    fn default() -> (res: Self)
        ensures
            res.name@ == "roker"@,
            res.buffer_size == 64 * 1024 * 1024,
            res.max_clients == 1000,
            res.max_subscriptions_per_client == 100,
    {
        BrokerConfig {
            name: "roker".to_string(),
            buffer_size: 64 * 1024 * 1024,
            max_clients: 1000,
            max_subscriptions_per_client: 100,
        }
    }
}

/// The lower-case hexadecimal digit of `d` (`0 <= d < 16`).
pub open spec fn hex_digit(d: u128) -> char {
    if d < 10 {
        (d + 48) as char
    } else {
        (d + 87) as char
    }
}

/// The `k`-th hexadecimal digit of `x`, counted from the most significant.
pub open spec fn hex_nibble(x: u128, k: int) -> u128 {
    (x >> ((4 * (31 - k)) as u128)) & 0xfu128
}

/// The hyphenated lower-case text of the UUID whose 128 bits are `x`:
/// 32 hexadecimal digits in groups of 8, 4, 4, 4 and 12, joined by `'-'`.
pub open spec fn uuid_text(x: u128) -> Seq<char> {
    Seq::new(
        36,
        |i: int|
            if i == 8 || i == 13 || i == 18 || i == 23 {
                '-'
            } else {
                let hyphens_before: int = if i > 23 {
                    4
                } else if i > 18 {
                    3
                } else if i > 13 {
                    2
                } else if i > 8 {
                    1
                } else {
                    0
                };
                hex_digit(hex_nibble(x, i - hyphens_before))
            },
    )
}

/// Whether the 128 bits `x` carry the marks of a random (version 4,
/// RFC 4122 variant) UUID.
pub open spec fn is_random_uuid(x: u128) -> bool {
    &&& (x >> 76u128) & 0xfu128 == 4
    &&& (x >> 62u128) & 0x3u128 == 2
}

/// `uuid::Uuid::new_v4`, taken as its 128 bits (`as_u128`). The result is
/// random; it is promised to carry the version-4 and RFC 4122 variant bits,
/// which `new_v4` sets on every result. (`new_v4` panics where the system
/// gives no random bytes.)
#[verifier::external_body]
fn random_uuid_bits() -> (res: u128)
    ensures
        is_random_uuid(res),
{
    uuid::Uuid::new_v4().as_u128()
}

/// The `to_string` of `uuid::Uuid::from_u128(x)`: promised to be the
/// hyphenated lower-case text of `x`, which is what `Uuid`'s `Display`
/// writes.
#[verifier::external_body]
fn uuid_to_string(x: u128) -> (res: String)
    ensures
        res@ == uuid_text(x),
{
    uuid::Uuid::from_u128(x).to_string()
}

/// Unique identifier for a client: the 128 bits of a UUID.
#[derive(Debug, Clone, Copy, PartialEq, Eq, Hash, Structural)]
pub struct ClientId {
    id: u128,
}

impl View for ClientId {
    type V = u128;

    closed spec fn view(&self) -> u128 {
        self.id
    }
}

impl Default for ClientId {
    /// A new random client ID.
    fn default() -> (res: Self)
        ensures
            is_random_uuid(res@),
    {
        Self::new()
    }
}

impl ClientId {
    /// Creates a new random client ID.
    pub fn new() -> (res: Self)
        ensures
            is_random_uuid(res@),
    {
        ClientId { id: random_uuid_bits() }
    }

    /// The client ID with the given 128 bits.
    pub fn from_u128(id: u128) -> (res: Self)
        ensures
            res@ == id,
    {
        ClientId { id }
    }

    /// The 128 bits of this client ID.
    pub fn as_u128(&self) -> (res: u128)
        ensures
            res == self@,
    {
        self.id
    }

    /// The hyphenated text of the client ID.
    pub fn as_str(&self) -> (res: String)
        ensures
            res@ == uuid_text(self@),
    {
        uuid_to_string(self.id)
    }
}

/// Topic for message routing.
#[derive(Debug, PartialEq, Eq, Hash)]
pub struct Topic {
    name: String,
}

impl Clone for Topic {
    fn clone(&self) -> (res: Self)
        ensures
            res@ == self@,
    {
        Topic { name: self.name.clone() }
    }
}

impl View for Topic {
    type V = Seq<char>;

    closed spec fn view(&self) -> Seq<char> {
        self.name@
    }
}

/// The check a topic name must pass: an empty name is refused with
/// `InvalidTopic`, a name longer than `MAX_TOPIC_LENGTH` bytes with
/// `TopicTooLong` (the length is `str::len`, the UTF-8
/// length); any other name is taken as it is.
pub open spec fn topic_name_check(name: &str) -> core::result::Result<Seq<char>, ErrorView> {
    if name@.len() == 0 {
        Err(ErrorView::InvalidTopic("Topic name cannot be empty"@))
    } else if name.len() > MAX_TOPIC_LENGTH {
        Err(ErrorView::TopicTooLong)
    } else {
        Ok(name@)
    }
}

/// A topic name is refused only for being empty or too long: every
/// non-empty name of at most `MAX_TOPIC_LENGTH` bytes (in UTF-8) is taken
/// as it is, whatever characters it holds, an empty one is `InvalidTopic`,
/// and a longer one `TopicTooLong`.
pub proof fn lemma_topic_names(name: &str)
    ensures
        name@.len() > 0 && name.len() <= MAX_TOPIC_LENGTH ==> topic_name_check(name) == Ok::<
            Seq<char>,
            ErrorView,
        >(name@),
        name@.len() == 0 ==> topic_name_check(name) is Err && topic_name_check(name)->Err_0 is InvalidTopic,
        name@.len() > 0 && name.len() > MAX_TOPIC_LENGTH ==> topic_name_check(name) == Err::<
            Seq<char>,
            ErrorView,
        >(ErrorView::TopicTooLong),
{
}

impl Topic {
    /// Creates a topic: see `topic_name_check`.
    pub fn new(name: &str) -> (res: Result<Self>)
        ensures
            match res {
                Ok(t) => topic_name_check(name) == Ok::<Seq<char>, ErrorView>(t@),
                Err(e) => topic_name_check(name) == Err::<Seq<char>, ErrorView>(e@),
            },
    {
        if name.is_empty() {
            return Err(Error::InvalidTopic("Topic name cannot be empty".to_string()));
        }
        if name.len() > MAX_TOPIC_LENGTH {
            return Err(Error::TopicTooLong);
        }
        Ok(Topic { name: name.to_string() })
    }

    /// A topic with the given name, as it came off the wire: the name is
    /// taken as it is, without the checks of `new`.
    pub fn from_string(name: String) -> (res: Self)
        ensures
            res@ == name@,
    {
        Topic { name }
    }

    /// The topic name.
    pub fn name(&self) -> (res: &str)
        ensures
            res@ == self@,
    {
        self.name.as_str()
    }
}

/// A point in time after the UNIX epoch.
#[derive(Debug, Clone, Copy, PartialEq, Eq, Structural)]
pub struct Timestamp {
    /// Whole seconds since the epoch
    pub secs_since_epoch: u64,
    /// Nanoseconds past those seconds
    pub nanos_since_epoch: u32,
}

/// `std::time::SystemTime`, a reading of the system clock; the library
/// never looks inside it.
#[verifier::external_type_specification]
#[verifier::external_body]
pub struct ExSystemTime(std::time::SystemTime);

/// `std::time::SystemTime::now`: a reading of the clock. Nothing is
/// promised of it.
#[verifier::external_body]
fn system_time_now() -> std::time::SystemTime {
    std::time::SystemTime::now()
}

/// `SystemTime::duration_since(UNIX_EPOCH)`: the time since the UNIX
/// epoch, or `None` where `t` is earlier than the epoch. The reading is
/// opaque, so nothing more is promised.
#[verifier::external_body]
fn since_unix_epoch(t: &std::time::SystemTime) -> Option<core::time::Duration> {
    match t.duration_since(std::time::UNIX_EPOCH) {
        Ok(d) => Some(d),
        Err(_) => None,
    }
}

/// `Duration::as_secs`: the whole seconds of `d`. `Duration` is opaque
/// here, so nothing is promised of the number.
#[verifier::external_body]
fn duration_secs(d: &core::time::Duration) -> u64 {
    d.as_secs()
}

/// `Duration::subsec_nanos`: the nanoseconds of `d` past its whole
/// seconds, which the documentation promises are fewer than a billion.
#[verifier::external_body]
fn duration_subsec_nanos(d: &core::time::Duration) -> (res: u32)
    ensures
        res < 1_000_000_000,
{
    d.subsec_nanos()
}

/// A message in the pub/sub system.
#[derive(Debug)]
pub struct Message {
    /// The topic this message belongs to
    pub topic: Topic,
    /// The message payload
    pub payload: Vec<u8>,
    /// When the message was created; `None` where the clock read earlier
    /// than the UNIX epoch
    pub timestamp: Option<Timestamp>,
}

impl Clone for Message {
    fn clone(&self) -> (res: Self)
        ensures
            res.topic@ == self.topic@,
            res.payload@ == self.payload@,
            res.timestamp == self.timestamp,
    {
        Message { topic: self.topic.clone(), payload: self.payload.clone(), timestamp: self.timestamp }
    }
}

impl Message {
    /// Creates a message stamped with the current time.
    pub fn new(topic: Topic, payload: Vec<u8>) -> (res: Self)
        ensures
            res.topic@ == topic@,
            res.payload@ == payload@,
            res.timestamp matches Some(t) ==> t.nanos_since_epoch < 1_000_000_000,
    {
        let now = system_time_now();
        let timestamp = match since_unix_epoch(&now) {
            Some(d) => Some(
                Timestamp { secs_since_epoch: duration_secs(&d), nanos_since_epoch: duration_subsec_nanos(&d) },
            ),
            None => None,
        };
        Message { topic, payload, timestamp }
    }
}

/// Statistics about the broker's operation.
#[derive(Debug, Clone, Copy, PartialEq, Eq, Structural)]
pub struct BrokerStats {
    /// Number of currently registered clients
    pub connected_clients: usize,
    /// Total number of active subscriptions (saturating at `usize::MAX`)
    pub total_subscriptions: usize,
    /// Total number of messages published
    pub messages_published: u64,
    /// Total number of messages delivered
    pub messages_delivered: u64,
    /// Bytes of the ring in use, from the oldest read position to the write
    /// position
    pub buffer_used: usize,
    /// Bytes on the ring
    pub buffer_size: usize,
}

} // verus!
