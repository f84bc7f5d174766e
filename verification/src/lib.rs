//! A minimal in-memory object store with a uniform CRUD contract:
//! list with equality filtering, get by identifier, create, partial
//! update, and idempotent delete.  Objects are JSON-like values; the
//! store assigns decimal string identifiers from a monotonic counter.

pub mod ids;
pub mod laws;
pub mod store;
pub mod value;

pub use store::ErrorKind;
pub use store::Store;
pub use value::Object;
pub use value::Value;
