//! Client-side logic of a file synchronisation service.

pub mod cli;
pub mod client;
pub mod error;
pub mod files;
pub mod http;
pub mod laws;
pub mod manager;
pub mod text;
pub mod walk;

pub use cli::{plan_command, CliCommand, CliFailure};
pub use client::{HttpTransport, SyncClient, SyncRequest};
pub use error::SyncError;
pub use files::{build_sync_request, format_digest, FileProbe};
pub use http::HttpResponse;
pub use manager::{CallLog, FlushReport, SyncManager, SyncTransport, TransportEvent};
pub use walk::{files_under, FsNode};
