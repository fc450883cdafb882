# xmip-core-transport-azure-blob

Azure Blob Storage as a transport: Shared Key over the Blob REST API. A
Receive Location lists a prefix, gets each blob and deletes it; a Send
Location puts a Stream as a block blob. The far end, a session that holds
blobs in memory and answers the four calls as the service does, is here too.

- `src/` is the verified library: the requests and their signatures
  (`shared_key`), percent-encoding (`percent`), the enumeration and error
  documents (`xml`), what an answer means (`client`), what a session
  answers and holds (`session`), and what the four calls come to end to end
  (`protocol`), and a receive step by step: list, then get and delete each
  blob, each arriving once deleted (`start_receive`, `receive_next`). Base64 and HMAC-SHA256 are called through the `base64`,
  `hmac` and `sha2` crates.
- `app/` holds what needs a socket or the clock: the calls over a
  connection, a session answering one connection, and the transport as the
  runtime drives it, sending each request the library asks for, through the `http` and `transport` technologies.
- `tests/` runs the library on concrete values.
