//! Change detection for files watched in remote repositories: content
//! fingerprints, fingerprint snapshots, and the diff that names the
//! repositories whose watched files changed between two runs.
pub mod fingerprint;
pub mod snapshot;
pub mod watch;
pub mod engine;
