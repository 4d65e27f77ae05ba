//! Provider-neutral email modeling, RFC 822/MIME parsing and rendering, and
//! attachment materialization policy.
pub mod text;
pub mod keyed;
pub mod mime_types;
pub mod email;
pub mod message_id;
pub mod address;
pub mod message;
pub mod wire;
pub mod attachment;
pub mod delivery;
pub mod cloudflare;
pub mod resend;
pub mod smtp;

pub use address::{
    Address, AddressBackendError, AddressList, AddressParseError, Group, GroupParseError, MAX_ADDRESS_INPUT_BYTES,
    Mailbox, MailboxList, MailboxParseError, ValueParseError,
};
pub use email::{EmailAddress, EmailAddressParseError};
pub use message::{
    Attachment, AttachmentBody, AttachmentReference, Body, Disposition, Envelope, Header, HeaderValidationError,
    Message, MessageBuilder, MessageValidationError, OutboundMessage,
};
pub use message_id::{MessageId, MessageIdParseError};
pub use mime_types::{
    ContentDisposition, ContentDispositionParseError, ContentTransferEncoding, ContentTransferEncodingParseError,
    ContentType, ContentTypeParseError, MediaType, MimePart, ParameterValue,
};
