//! The session layer of a desktop client for a document database.
//!
//! The layer keeps what lives between requests: the open connections, the
//! cursor sessions that page through result sets, the change feeds with
//! their bounded event buffers, and a bounded history of the queries that
//! were run. Each of these is a plain owned value; sharing them between
//! request handlers and background tasks, and every call into the database
//! driver, is left to the program around the library.
//!
//! * [`registry`]: connections by identifier.
//! * [`cursor`]: cursor sessions and the batches that are read from them.
//! * [`feed`]: change feeds, their life cycle and their event buffers.
//! * [`history`]: the query history.
//! * [`bounded`], [`keyed`]: the two stores the components are built on.
//! * [`clock`], [`ids`], [`text`]: timestamps, fresh identifiers, strings.
//! * [`json`], [`export`]: structured values and their rendering as CSV.
//! * [`options`], [`explain`], [`index`]: settings and replies of single
//!   driver operations.
//! * [`credentials`]: the list of stored credentials.

pub mod bounded;
pub mod clock;
pub mod credentials;
pub mod cursor;
pub mod explain;
pub mod export;
pub mod feed;
pub mod history;
pub mod ids;
pub mod index;
pub mod json;
pub mod keyed;
pub mod options;
pub mod registry;
pub mod text;
