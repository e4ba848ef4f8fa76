//! Per-document state of the language server and the staleness decision for
//! diagnostic publishing.
//!
//! A URI's diagnostics are dropped when the analysis cannot be shown to have
//! run against the document state the server now holds. The decision is made
//! here from plain values; the one input that needs the file system (whether
//! an open buffer still matches the file on disk) is asked for only when the
//! decision depends on it.

use vstd::prelude::*;

verus! {

/// Per-document state tracked by the language server: the `version` the
/// client supplies on every open / change, and the latest text.
#[derive(Debug, Clone)]
pub struct DocumentState {
    pub version: i32,
    pub text: String,
}

/// Per-URI document state captured when an analysis run starts.
#[derive(Debug, Clone, Copy)]
pub struct DocumentSnapshot {
    pub version: i32,
    /// The open buffer matched the file on disk when the run started.
    pub matches_disk: bool,
}

/// The staleness of one URI, before any disk access.
#[derive(Debug, Clone, Copy, PartialEq, Eq, Structural)]
pub enum Staleness {
    /// The analysis saw the document the server holds: publish.
    Fresh,
    /// The document changed or was closed since the snapshot: drop.
    Stale,
    /// The document was opened after the snapshot: stale exactly when the
    /// open buffer differs from the file on disk.
    StaleUnlessBufferMatchesDisk,
}

/// The staleness of a URI from its captured snapshot and the version of its
/// live document (`None` when the client has no such document open):
/// - in the snapshot and open: stale when the snapshot buffer did not match
///   disk or the live version advanced past the snapshot (equal versions are
///   the same document state);
/// - in the snapshot but closed since: stale;
/// - opened since the snapshot: stale unless the buffer matches disk;
/// - in neither (a file never opened by the client): fresh.
pub open spec fn staleness_of(snapshot: Option<DocumentSnapshot>, live_version: Option<i32>) -> Staleness {
    match (snapshot, live_version) {
        (Some(snap), Some(v)) => if !snap.matches_disk || v > snap.version {
            Staleness::Stale
        } else {
            Staleness::Fresh
        },
        (Some(_), None) => Staleness::Stale,
        (None, Some(_)) => Staleness::StaleUnlessBufferMatchesDisk,
        (None, None) => Staleness::Fresh,
    }
}

pub open spec fn live_version(live: Option<&DocumentState>) -> Option<i32> {
    match live {
        Some(doc) => Some(doc.version),
        None => None,
    }
}

/// The staleness of a URI given its captured snapshot and its live document
/// (see [`staleness_of`]).
pub fn uri_staleness(snapshot: Option<DocumentSnapshot>, live: Option<&DocumentState>) -> (r: Staleness)
    ensures
        r == staleness_of(snapshot, live_version(live)),
{
    match (snapshot, live) {
        (Some(snap), Some(doc)) => {
            if !snap.matches_disk || doc.version > snap.version {
                Staleness::Stale
            } else {
                Staleness::Fresh
            }
        },
        (Some(_), None) => Staleness::Stale,
        (None, Some(_)) => Staleness::StaleUnlessBufferMatchesDisk,
        (None, None) => Staleness::Fresh,
    }
}

impl Staleness {
    /// Whether the URI is stale, given whether the live buffer matches disk
    /// (consulted only for [`Staleness::StaleUnlessBufferMatchesDisk`]).
    pub fn is_stale(self, buffer_matches_disk: bool) -> (r: bool)
        ensures
            r == match self {
                Staleness::Fresh => false,
                Staleness::Stale => true,
                Staleness::StaleUnlessBufferMatchesDisk => !buffer_matches_disk,
            },
    {
        match self {
            Staleness::Fresh => false,
            Staleness::Stale => true,
            Staleness::StaleUnlessBufferMatchesDisk => !buffer_matches_disk,
        }
    }
}

/// Versions decide staleness for a snapshotted document whose buffer matched
/// disk: the same version is fresh, any later version is stale; a document
/// closed since the snapshot is stale; a document the client never opened is
/// fresh.
pub proof fn lemma_version_decides_staleness(snap: DocumentSnapshot, version: i32)
    ensures
        snap.matches_disk && version == snap.version ==> staleness_of(Some(snap), Some(version)) == Staleness::Fresh,
        version > snap.version ==> staleness_of(Some(snap), Some(version)) == Staleness::Stale,
        !snap.matches_disk ==> staleness_of(Some(snap), Some(version)) == Staleness::Stale,
        staleness_of(Some(snap), None) == Staleness::Stale,
        staleness_of(None, None) == Staleness::Fresh,
{
}

} // verus!
