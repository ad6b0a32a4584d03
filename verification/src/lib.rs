//! A minimal paginated binary storage primitive.
//!
//! A value is serialized to bytes, the bytes are split into fixed-capacity
//! pages (zero-padded, each recording how many of its bytes are meaningful),
//! and the pages are appended to a seekable byte store, each page's identity
//! being the offset at which it was written.  Reading runs the pipeline in
//! reverse: the meaningful bytes of each page are concatenated and handed
//! back to the deserializer.

pub mod pagination;
pub mod serialization;
pub mod storage;
