use vstd::prelude::*;

verus! {

/// The error type of `shared_memory`, carried unchanged by
/// `Error::SharedMemoryCreation`; the library never looks inside it.
#[verifier::external_type_specification]
#[verifier::external_body]
pub struct ExShmemError(shared_memory::ShmemError);

/// `std::io::Error`, carried unchanged by `Error::Io`; the library never
/// looks inside it.
#[verifier::external_type_specification]
#[verifier::external_body]
pub struct ExIoError(std::io::Error);

/// Everything that can go wrong in the broker.
#[derive(Debug)]
pub enum Error {
    SharedMemoryCreation(shared_memory::ShmemError),
    BufferFull,
    BufferEmpty,
    InvalidBufferSize,
    Io(std::io::Error),
    TopicTooLong,
    InvalidTopic(String),
    LockError,
    SerializationError(String),
    DeserializationError(String),
    ClientLimitExceeded,
    ClientNotFound(String),
    SubscriptionLimitExceeded(String),
    Timeout,
    InvalidConfig(String),
    BufferTooSmall,
}

/// An `Error` with its texts taken as character sequences.
pub enum ErrorView {
    SharedMemoryCreation,
    BufferFull,
    BufferEmpty,
    InvalidBufferSize,
    Io,
    TopicTooLong,
    InvalidTopic(Seq<char>),
    LockError,
    SerializationError(Seq<char>),
    DeserializationError(Seq<char>),
    ClientLimitExceeded,
    ClientNotFound(Seq<char>),
    SubscriptionLimitExceeded(Seq<char>),
    Timeout,
    InvalidConfig(Seq<char>),
    BufferTooSmall,
}

impl View for Error {
    type V = ErrorView;

    open spec fn view(&self) -> ErrorView {
        match self {
            Error::SharedMemoryCreation(_) => ErrorView::SharedMemoryCreation,
            Error::BufferFull => ErrorView::BufferFull,
            Error::BufferEmpty => ErrorView::BufferEmpty,
            Error::InvalidBufferSize => ErrorView::InvalidBufferSize,
            Error::Io(_) => ErrorView::Io,
            Error::TopicTooLong => ErrorView::TopicTooLong,
            Error::InvalidTopic(s) => ErrorView::InvalidTopic(s@),
            Error::LockError => ErrorView::LockError,
            Error::SerializationError(s) => ErrorView::SerializationError(s@),
            Error::DeserializationError(s) => ErrorView::DeserializationError(s@),
            Error::ClientLimitExceeded => ErrorView::ClientLimitExceeded,
            Error::ClientNotFound(s) => ErrorView::ClientNotFound(s@),
            Error::SubscriptionLimitExceeded(s) => ErrorView::SubscriptionLimitExceeded(s@),
            Error::Timeout => ErrorView::Timeout,
            Error::InvalidConfig(s) => ErrorView::InvalidConfig(s@),
            Error::BufferTooSmall => ErrorView::BufferTooSmall,
        }
    }
}

/// The text of an error: a fixed sentence, followed for some errors by the
/// text they carry. For
/// `SharedMemoryCreation` and `Io` this is the opening only; the text of the
/// carried outside error follows it.
pub open spec fn error_message(e: ErrorView) -> Seq<char> {
    match e {
        ErrorView::SharedMemoryCreation => "Failed to create shared memory segment: "@,
        ErrorView::BufferFull => "Buffer is full"@,
        ErrorView::BufferEmpty => "Buffer is empty"@,
        ErrorView::InvalidBufferSize => "Invalid buffer size"@,
        ErrorView::Io => "IO error: "@,
        ErrorView::TopicTooLong => "Topic name too long"@,
        ErrorView::InvalidTopic(s) => "Invalid topic name: "@ + s,
        ErrorView::LockError => "Failed to acquire broker lock"@,
        ErrorView::SerializationError(s) => "Failed to serialize message: "@ + s,
        ErrorView::DeserializationError(s) => "Failed to deserialize message: "@ + s,
        ErrorView::ClientLimitExceeded => "Client limit exceeded"@,
        ErrorView::ClientNotFound(s) => "Client not found: "@ + s,
        ErrorView::SubscriptionLimitExceeded(s) => "Subscription limit exceeded for client: "@ + s,
        ErrorView::Timeout => "Operation timeout"@,
        ErrorView::InvalidConfig(s) => "Invalid configuration: "@ + s,
        ErrorView::BufferTooSmall => "Buffer too small"@,
    }
}

/// The `Display` text of a `shared_memory::ShmemError`. It depends on the
/// error only; nothing is promised of it.
#[verifier::external_body]
fn shmem_error_text(e: &shared_memory::ShmemError) -> String {
    e.to_string()
}

/// The `Display` text of a `std::io::Error`. Nothing is promised of it.
#[verifier::external_body]
fn io_error_text(e: &std::io::Error) -> String {
    e.to_string()
}

impl Error {
    /// The error's text: see `error_message`. Where an outside error is
    /// carried, its own text follows the opening.
    pub fn to_string(&self) -> (res: String)
        ensures
            error_message(self@).is_prefix_of(res@),
            !(self@ is SharedMemoryCreation || self@ is Io) ==> res@ == error_message(self@),
    {
        let (opening, detail): (&str, Option<String>) = match self {
            Error::SharedMemoryCreation(e) => ("Failed to create shared memory segment: ", Some(shmem_error_text(e))),
            Error::BufferFull => ("Buffer is full", None),
            Error::BufferEmpty => ("Buffer is empty", None),
            Error::InvalidBufferSize => ("Invalid buffer size", None),
            Error::Io(e) => ("IO error: ", Some(io_error_text(e))),
            Error::TopicTooLong => ("Topic name too long", None),
            Error::InvalidTopic(s) => ("Invalid topic name: ", Some(s.clone())),
            Error::LockError => ("Failed to acquire broker lock", None),
            Error::SerializationError(s) => ("Failed to serialize message: ", Some(s.clone())),
            Error::DeserializationError(s) => ("Failed to deserialize message: ", Some(s.clone())),
            Error::ClientLimitExceeded => ("Client limit exceeded", None),
            Error::ClientNotFound(s) => ("Client not found: ", Some(s.clone())),
            Error::SubscriptionLimitExceeded(s) => ("Subscription limit exceeded for client: ", Some(s.clone())),
            Error::Timeout => ("Operation timeout", None),
            Error::InvalidConfig(s) => ("Invalid configuration: ", Some(s.clone())),
            Error::BufferTooSmall => ("Buffer too small", None),
        };
        let mut text = opening.to_string();
        match detail {
            Some(d) => text.append(d.as_str()),
            None => {},
        }
        proof {
            assert(error_message(self@).is_prefix_of(text@)) by {
                assert(text@.subrange(0, opening@.len() as int) =~= opening@);
            }
        }
        text
    }
}

/// The broker's result type.
pub type Result<T> = core::result::Result<T, Error>;

} // verus!
