# email_kit

Provider-neutral email modeling, RFC 822/MIME parsing and rendering, and
attachment materialization policy, written in Verus: the library's
functions carry `requires`/`ensures` contracts over mathematical models
(views as `Seq`, `Map` and plain-value structs), and Verus proves them.

## Layout

- `src/text.rs`: character and string helpers shared by the parsers.
- `src/email.rs`, `src/address.rs`, `src/message_id.rs`, `src/mime_types.rs`:
  the value types (addresses, groups, message ids, content types,
  transfer encodings, dispositions, MIME trees) with their parsers and
  canonical forms.
- `src/message.rs`: messages, headers, attachments, bodies, outbound
  validation, envelopes, and the builder.
- `src/wire.rs` and `src/wire/`: RFC 822/MIME parsing and rendering:
  header folding, RFC 2047 encoded words, base64 and quoted-printable
  transfer encodings, multipart splitting and rendering. The laws that
  tie rendering to parsing stand in `src/wire/round_trip.rs` (a written
  header block reads back as its fields; a rendered message keeps its
  subject; Bcc is written only on request), `src/wire/mime_round_trip.rs`
  (a written multipart body splits back into its children; each
  attachment part parses as a leaf holding the attachment's bytes; a
  rendered message with a text body and attachments parses back to that
  tree once each of its written header fields reads) and
  `src/wire/header_lines.rs` (every written header line is printable
  ASCII, ends in CRLF and is at most 998 bytes long; a `Bcc: ` line is
  written only on request).
- `src/attachment.rs` and `src/attachment/`: size limits, resolution
  errors, the in-memory resolver, scheme routing and fallback decisions,
  store paths and the classification of storage failures, and the
  step-by-step preparation of reference-backed attachments.
- `src/delivery.rs`, `src/cloudflare.rs`, `src/resend.rs`, `src/smtp.rs`:
  classified delivery failures and the provider mappings that decide what
  is sent (the Cloudflare `send_email` payload and error codes, the Resend
  send options and email and the classification of Resend client
  failures, the SMTP failure classification and errors).
- `src/keyed.rs`: string-keyed entries with unique keys, viewed as a map.
- `app/lib.rs`: asynchronous attachment resolution on top of the library's
  decisions (the resolver trait, the scheme router, the preparation driver);
  `app/resend_options.rs`: serde copies of the Resend send options.
- `tests/`: the library's tests.

Outside crates are reached only through small trusted wrappers whose
contracts name what the crate computes (`addr_spec`, `mail_parser`,
`base64`, `time`); `serde_json` values ride along as opaque template
variables.
