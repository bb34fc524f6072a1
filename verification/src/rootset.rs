//! Root-set policy: an ordered list of content roots probed until one
//! yields a match, the default-document order for directory hits, and the
//! error taxonomy of the serving core. Storage probing itself is I/O and
//! stays with the host; the decisions over the probe outcomes live here.

use vstd::prelude::*;

verus! {

/// Configuration of the serving core.
pub struct ServeOptions {
    /// Whether entries whose name starts with `.` are visible and resolvable.
    pub dot_files: bool,
    /// Whether a directory without a usable default document renders a
    /// listing instead of not-found.
    pub listing: bool,
    /// Candidate default-document names, tried in order.
    pub defaults: Vec<String>,
    /// A resource served when the resolved path is a total miss
    /// (embedded/single-root mode only); resolved at serve time.
    pub fallback: Option<String>,
    /// The unit size used when streaming file bytes; I/O granularity only.
    pub chunk_size: Option<u64>,
}

impl ServeOptions {
    /// The usual starting configuration: dot files hidden, listings on,
    /// no default documents, no fallback.
    pub fn new() -> (r: ServeOptions)
        ensures
            r.dot_files == false,
            r.listing == true,
            r.defaults@.len() == 0,
            r.fallback is None,
            r.chunk_size is None,
    {
        ServeOptions {
            dot_files: false,
            listing: true,
            defaults: Vec::new(),
            fallback: None,
            chunk_size: None,
        }
    }
}

/// What probing one root for the safe relative path found. Any storage
/// error other than absence is surfaced, never converted to a miss.
#[derive(Clone, Copy, PartialEq, Eq, Structural, Debug)]
pub enum ProbeOutcome {
    /// A regular file of the given byte size.
    FileFound(u64),
    /// A directory.
    DirFound,
    /// Nothing at this path.
    Missing,
    /// A storage fault distinct from absence (permission, device error).
    Fault,
}

/// The first root whose probe was not a miss wins; roots are never merged.
pub fn first_hit(outcomes: &Vec<ProbeOutcome>) -> (r: Option<usize>)
    ensures
        match r {
            Some(i) => i < outcomes@.len() && outcomes@[i as int] != ProbeOutcome::Missing
                && forall|k: int| 0 <= k < i ==> outcomes@[k] == ProbeOutcome::Missing,
            None => forall|k: int|
                0 <= k < outcomes@.len() ==> outcomes@[k] == ProbeOutcome::Missing,
        },
{
    let mut j: usize = 0;
    while j < outcomes.len()
        invariant
            j <= outcomes@.len(),
            forall|k: int| 0 <= k < j ==> outcomes@[k] == ProbeOutcome::Missing,
        decreases outcomes@.len() - j,
    {
        if outcomes[j] != ProbeOutcome::Missing {
            return Some(j);
        }
        j += 1;
    }
    None
}

/// What a probe outcome means for the response.
#[derive(Clone, Copy, PartialEq, Eq, Structural, Debug)]
pub enum ServeStep {
    /// Stream the file of the given byte size.
    SendFile(u64),
    /// Look for default documents, then a listing.
    ExploreDir,
    /// Answer with the error.
    Reject(ServeError),
}

pub open spec fn classify_probe_spec(p: ProbeOutcome) -> ServeStep {
    match p {
        ProbeOutcome::FileFound(size) => ServeStep::SendFile(size),
        ProbeOutcome::DirFound => ServeStep::ExploreDir,
        ProbeOutcome::Missing => ServeStep::Reject(ServeError::NotFound),
        ProbeOutcome::Fault => ServeStep::Reject(ServeError::IoFailure),
    }
}

/// Turn the winning probe outcome into the next serving step: absence is
/// not-found, a storage fault is a server error and never a silent miss.
pub fn classify_probe(p: ProbeOutcome) -> (r: ServeStep)
    ensures
        r == classify_probe_spec(p),
{
    match p {
        ProbeOutcome::FileFound(size) => ServeStep::SendFile(size),
        ProbeOutcome::DirFound => ServeStep::ExploreDir,
        ProbeOutcome::Missing => ServeStep::Reject(ServeError::NotFound),
        ProbeOutcome::Fault => ServeStep::Reject(ServeError::IoFailure),
    }
}

/// What to do with a directory hit.
#[derive(Clone, Copy, PartialEq, Eq, Structural, Debug)]
pub enum DirAction {
    /// Serve the default document with the given index in the configured
    /// order.
    ServeDefault(usize),
    /// Render a listing.
    RenderListing,
    /// Report not-found.
    NotFound,
}

/// Decide a directory hit: the first configured default document that
/// exists is served; only then, a listing is rendered when enabled, and
/// otherwise the hit is a miss. `found[i]` says whether the i-th configured
/// default name exists inside the directory.
pub fn dir_action(listing: bool, found: &Vec<bool>) -> (r: DirAction)
    ensures
        match r {
            DirAction::ServeDefault(i) => i < found@.len() && found@[i as int] && forall|k: int|
                0 <= k < i ==> !found@[k],
            DirAction::RenderListing => listing && forall|k: int|
                0 <= k < found@.len() ==> !found@[k],
            DirAction::NotFound => !listing && forall|k: int|
                0 <= k < found@.len() ==> !found@[k],
        },
{
    let mut j: usize = 0;
    while j < found.len()
        invariant
            j <= found@.len(),
            forall|k: int| 0 <= k < j ==> !found@[k],
        decreases found@.len() - j,
    {
        if found[j] {
            return DirAction::ServeDefault(j);
        }
        j += 1;
    }
    if listing {
        DirAction::RenderListing
    } else {
        DirAction::NotFound
    }
}

/// The error taxonomy of the serving core. Lexical path handling never
/// fails; only absence, an unsatisfiable range, and storage faults reach a
/// response.
#[derive(Clone, Copy, PartialEq, Eq, Structural, Debug)]
pub enum ServeError {
    /// No matching root entry, or the fallback missed too.
    NotFound,
    /// The requested byte range starts beyond the resource size.
    RangeNotSatisfiable,
    /// A storage fault distinct from absence; surfaced as a server error.
    IoFailure,
}

impl ServeError {
    /// The response status each error is reported with.
    pub fn status_code(&self) -> (r: u16)
        ensures
            *self == ServeError::NotFound ==> r == 404,
            *self == ServeError::RangeNotSatisfiable ==> r == 416,
            *self == ServeError::IoFailure ==> r == 500,
    {
        match self {
            ServeError::NotFound => 404,
            ServeError::RangeNotSatisfiable => 416,
            ServeError::IoFailure => 500,
        }
    }

    /// A short response text for the error.
    pub fn message(&self) -> (r: &'static str)
        ensures
            *self == ServeError::NotFound ==> r@ == "Not Found"@,
            *self == ServeError::RangeNotSatisfiable ==> r@ == "Range Not Satisfiable"@,
            *self == ServeError::IoFailure ==> r@ == "Internal Server Error"@,
    {
        match self {
            ServeError::NotFound => "Not Found",
            ServeError::RangeNotSatisfiable => "Range Not Satisfiable",
            ServeError::IoFailure => "Internal Server Error",
        }
    }
}

} // verus!
