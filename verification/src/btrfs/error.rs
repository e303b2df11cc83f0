//! Errors of the btrfs scanners.

use vstd::prelude::*;

use crate::aggregate::AggregateError;
use crate::arena::ArenaError;
use crate::failure::IoError;
use crate::text;

verus! {

/// Why the direct reader gave up.
#[derive(Debug)]
pub enum DirectError {
    Open { path: Vec<u8>, source: IoError },
    Io(IoError),
    InvalidItem,
    Arena(ArenaError),
    Aggregate(AggregateError),
}

impl DirectError {
    /// The error in words.
    pub open spec fn words(self) -> Seq<char> {
        match self {
            DirectError::Open { path, source } => "cannot open btrfs mount "@ + text::lossy_text(
                path@,
            ) + ": "@ + source.message@,
            DirectError::Io(source) => "btrfs tree search failed: "@ + source.message@,
            DirectError::InvalidItem => "invalid btrfs tree item"@,
            DirectError::Arena(error) => error.words(),
            DirectError::Aggregate(error) => error.words(),
        }
    }

    /// Describes the error.
    pub fn message(&self) -> (message: String)
        ensures
            message@ == self.words(),
    {
        match self {
            DirectError::Open { path, source } => {
                let mut message = String::from_str("cannot open btrfs mount ");
                message.append(text::from_utf8_lossy(path.as_slice()).as_str());
                message.append(": ");
                message.append(source.message.as_str());
                message
            },
            DirectError::Io(source) => {
                let mut message = String::from_str("btrfs tree search failed: ");
                message.append(source.message.as_str());
                message
            },
            DirectError::InvalidItem => String::from_str("invalid btrfs tree item"),
            DirectError::Arena(error) => error.message(),
            DirectError::Aggregate(error) => error.message(),
        }
    }
}

/// Why a btrfs filesystem cannot be opened or scanned.
#[derive(Debug)]
pub enum BtrfsError {
    RequiresMountedDirectory(Vec<u8>),
    InspectPath { path: Vec<u8>, source: IoError },
    Arena(ArenaError),
    Aggregate(AggregateError),
    Direct(String),
}

impl BtrfsError {
    /// The failure is a lack of permission.
    pub open spec fn denied(self) -> bool {
        self matches BtrfsError::InspectPath { source, .. } && source.permission_denied
    }

    /// Whether the failure is a lack of permission.
    pub fn is_permission_denied(&self) -> (denied: bool)
        ensures
            denied == self.denied(),
    {
        match self {
            BtrfsError::InspectPath { source, .. } => source.permission_denied,
            _ => false,
        }
    }

    /// The error in words.
    pub open spec fn words(self) -> Seq<char> {
        match self {
            BtrfsError::RequiresMountedDirectory(path) => {
                "btrfs scanning requires a mounted btrfs directory: "@ + text::lossy_text(path@)
            },
            BtrfsError::InspectPath { path, source } => "cannot inspect btrfs path "@
                + text::lossy_text(path@) + ": "@ + source.message@,
            BtrfsError::Arena(error) => error.words(),
            BtrfsError::Aggregate(error) => error.words(),
            BtrfsError::Direct(message) => "direct btrfs reader: "@ + message@,
        }
    }

    /// Describes the error.
    pub fn message(&self) -> (message: String)
        ensures
            message@ == self.words(),
    {
        match self {
            BtrfsError::RequiresMountedDirectory(path) => {
                let mut message = String::from_str(
                    "btrfs scanning requires a mounted btrfs directory: ",
                );
                message.append(text::from_utf8_lossy(path.as_slice()).as_str());
                message
            },
            BtrfsError::InspectPath { path, source } => {
                let mut message = String::from_str("cannot inspect btrfs path ");
                message.append(text::from_utf8_lossy(path.as_slice()).as_str());
                message.append(": ");
                message.append(source.message.as_str());
                message
            },
            BtrfsError::Arena(error) => error.message(),
            BtrfsError::Aggregate(error) => error.message(),
            BtrfsError::Direct(reader) => {
                let mut message = String::from_str("direct btrfs reader: ");
                message.append(reader.as_str());
                message
            },
        }
    }

    /// `error` is what the direct reader's `inner` error becomes for the mount at `root`.
    pub open spec fn reports(self, inner: DirectError, root: Seq<u8>) -> bool {
        match inner {
            DirectError::Open { path, source } => self == (BtrfsError::InspectPath {
                path,
                source,
            }),
            DirectError::Io(source) if source.permission_denied => {
                self matches BtrfsError::InspectPath { path, source: kept } && path@ == root && kept
                    == source
            },
            other => self matches BtrfsError::Direct(message) && message@ == other.words(),
        }
    }

    /// Reports an error of the direct reader. A lack of permission stays recognizable.
    pub fn from_direct(inner: DirectError, root: &[u8]) -> (error: BtrfsError)
        ensures
            error.reports(inner, root@),
    {
        match inner {
            DirectError::Open { path, source } => BtrfsError::InspectPath { path, source },
            DirectError::Io(source) => {
                if source.permission_denied {
                    BtrfsError::InspectPath { path: text::copy_bytes(root), source }
                } else {
                    BtrfsError::Direct(DirectError::Io(source).message())
                }
            },
            other => BtrfsError::Direct(other.message()),
        }
    }
}

/// A failure is a lack of permission exactly if the system says so of the path.
pub proof fn law_denials_are_recognised(error: BtrfsError)
    ensures
        error.denied() <==> (error matches BtrfsError::InspectPath { source, .. }
            && source.permission_denied),
{
}

/// A lack of permission of the direct reader stays recognizable, and nothing else becomes one.
pub proof fn law_denials_stay_recognizable(error: BtrfsError, inner: DirectError, root: Seq<u8>)
    requires
        error.reports(inner, root),
    ensures
        error.denied() <==> (inner matches DirectError::Open { source, .. }
            && source.permission_denied) || (inner matches DirectError::Io(source)
            && source.permission_denied),
{
}

/// The words of an error name the path and pass on what the system says.
pub proof fn law_words_tell_the_cause(error: BtrfsError)
    ensures
        error matches BtrfsError::InspectPath { path, source } ==> text::contains(
            error.words(),
            text::lossy_text(path@),
        ) && text::ends_with(error.words(), source.message@),
        error matches BtrfsError::RequiresMountedDirectory(path) ==> text::ends_with(
            error.words(),
            text::lossy_text(path@),
        ),
        error matches BtrfsError::Direct(message) ==> text::ends_with(error.words(), message@),
        error matches BtrfsError::Arena(inner) ==> error.words() == inner.words(),
        error matches BtrfsError::Aggregate(inner) ==> error.words() == inner.words(),
{
    let words = error.words();
    match error {
        BtrfsError::InspectPath { path, source } => {
            let front = "cannot inspect btrfs path "@;
            let name = text::lossy_text(path@);
            text::lemma_contains_end(front, name);
            text::lemma_contains_more(Seq::empty(), front + name, ": "@, name);
            text::lemma_contains_more(Seq::empty(), front + name + ": "@, source.message@, name);
            assert(words.skip(words.len() - source.message@.len()) =~= source.message@);
        },
        BtrfsError::RequiresMountedDirectory(path) => {
            let name = text::lossy_text(path@);
            assert(words.skip(words.len() - name.len()) =~= name);
        },
        BtrfsError::Direct(message) => {
            assert(words.skip(words.len() - message@.len()) =~= message@);
        },
        _ => {},
    }
}

} // verus!
