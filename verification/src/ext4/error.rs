//! Errors of the ext4 scanner.

use vstd::prelude::*;

use crate::aggregate::AggregateError;
use crate::arena::ArenaError;
use crate::failure::IoError;
use crate::text;

verus! {

/// A failed call into the filesystem library.
#[derive(Debug)]
pub enum NativeError {
    PathContainsNul,
    Library { operation: &'static str, code: i64 },
    CallbackPanicked,
}

impl NativeError {
    /// The code of a library error.
    pub fn code(&self) -> (code: Option<i64>)
        ensures
            code == self.library_code(),
    {
        match self {
            NativeError::Library { code, .. } => Some(*code),
            _ => None,
        }
    }

    /// The code of a library error.
    pub open spec fn library_code(self) -> Option<i64> {
        match self {
            NativeError::Library { code, .. } => Some(code),
            _ => None,
        }
    }

    /// The error in words, `text` being the library's text for its code.
    pub open spec fn words(self, text: Seq<char>) -> Seq<char> {
        match self {
            NativeError::PathContainsNul => "device path contains a NUL byte"@,
            NativeError::CallbackPanicked => "filesystem callback panicked"@,
            NativeError::Library { operation, code } => operation@ + ": "@ + text
                + " (libext2fs error "@ + text::signed_decimal(code as int) + ")"@,
        }
    }

    /// Describes the error, `text` being the library's text for its code.
    pub fn message(&self, text: &str) -> (message: String)
        ensures
            message@ == self.words(text@),
    {
        match self {
            NativeError::PathContainsNul => String::from_str("device path contains a NUL byte"),
            NativeError::CallbackPanicked => String::from_str("filesystem callback panicked"),
            NativeError::Library { operation, code } => {
                let mut message = String::from_str(operation);
                message.append(": ");
                message.append(text);
                message.append(" (libext2fs error ");
                text::push_signed(&mut message, *code);
                message.append(")");
                message
            },
        }
    }
}

/// A code of zero means success.
pub fn check(operation: &'static str, code: i64) -> (result: Result<(), NativeError>)
    ensures
        result == if code == 0 {
            Ok::<(), NativeError>(())
        } else {
            Err(NativeError::Library { operation, code })
        },
{
    if code == 0 {
        Ok(())
    } else {
        Err(NativeError::Library { operation, code })
    }
}

/// The code with which the filesystem library reports a lack of permission.
pub const ACCESS_DENIED: i64 = 13;

/// Why an ext4 filesystem cannot be opened or scanned.
#[derive(Debug)]
pub enum Ext4Error {
    InspectPath { path: Vec<u8>, source: IoError },
    UnsupportedPath(Vec<u8>),
    NotExt4(Vec<u8>),
    Native { message: String, code: Option<i64> },
    MissingRoot,
    RootNotDirectory,
    WorkerPanicked,
    Arena(ArenaError),
    Aggregate(AggregateError),
}

impl Ext4Error {
    /// The failure is a lack of permission.
    pub open spec fn denied(self) -> bool {
        match self {
            Ext4Error::InspectPath { source, .. } => source.permission_denied,
            Ext4Error::Native { code, .. } => code == Some(ACCESS_DENIED),
            _ => false,
        }
    }

    /// Whether the failure is a lack of permission.
    pub fn is_permission_denied(&self) -> (denied: bool)
        ensures
            denied == self.denied(),
    {
        match self {
            Ext4Error::InspectPath { source, .. } => source.permission_denied,
            Ext4Error::Native { code, .. } => match code {
                Some(code) => *code == ACCESS_DENIED,
                None => false,
            },
            _ => false,
        }
    }

    /// The error of a failed library call, `text` being the library's text for its code.
    pub fn from_native(error: NativeError, text: &str) -> (result: Ext4Error)
        ensures
            result matches Ext4Error::Native { message, code } && message@ == error.words(text@)
                && code == error.library_code(),
    {
        Ext4Error::Native { message: error.message(text), code: error.code() }
    }

    /// The error in words.
    pub open spec fn words(self) -> Seq<char> {
        match self {
            Ext4Error::InspectPath { path, source } => "cannot inspect "@ + text::lossy_text(path@)
                + ": "@ + source.message@,
            Ext4Error::UnsupportedPath(path) => text::lossy_text(path@)
                + " is neither a block device nor a regular filesystem image"@,
            Ext4Error::NotExt4(path) => text::lossy_text(path@)
                + " is an ext2 or ext3 filesystem; Akimi requires ext4"@,
            Ext4Error::Native { message, .. } => "libext2fs: "@ + message@,
            Ext4Error::MissingRoot => "filesystem has no live root inode"@,
            Ext4Error::RootNotDirectory => "filesystem root inode is not a directory"@,
            Ext4Error::WorkerPanicked => "filesystem scan worker panicked"@,
            Ext4Error::Arena(error) => error.words(),
            Ext4Error::Aggregate(error) => error.words(),
        }
    }

    /// Describes the error.
    pub fn message(&self) -> (message: String)
        ensures
            message@ == self.words(),
    {
        match self {
            Ext4Error::InspectPath { path, source } => {
                let mut message = String::from_str("cannot inspect ");
                message.append(text::from_utf8_lossy(path.as_slice()).as_str());
                message.append(": ");
                message.append(source.message.as_str());
                message
            },
            Ext4Error::UnsupportedPath(path) => {
                let mut message = text::from_utf8_lossy(path.as_slice());
                message.append(" is neither a block device nor a regular filesystem image");
                message
            },
            Ext4Error::NotExt4(path) => {
                let mut message = text::from_utf8_lossy(path.as_slice());
                message.append(" is an ext2 or ext3 filesystem; Akimi requires ext4");
                message
            },
            Ext4Error::Native { message: native, .. } => {
                let mut message = String::from_str("libext2fs: ");
                message.append(native.as_str());
                message
            },
            Ext4Error::MissingRoot => String::from_str("filesystem has no live root inode"),
            Ext4Error::RootNotDirectory => String::from_str(
                "filesystem root inode is not a directory",
            ),
            Ext4Error::WorkerPanicked => String::from_str("filesystem scan worker panicked"),
            Ext4Error::Arena(error) => error.message(),
            Ext4Error::Aggregate(error) => error.message(),
        }
    }
}

/// A failure is a lack of permission exactly if the system says so of the path, or the library reports
/// error 13.
pub proof fn law_denials_are_recognised(error: Ext4Error)
    ensures
        error.denied() <==> (error matches Ext4Error::InspectPath { source, .. }
            && source.permission_denied) || (error matches Ext4Error::Native { code, .. } && code
            == Some(13i64)),
{
}

/// The words of an error name the path or the call and pass on what the system or the library says.
pub proof fn law_words_tell_the_cause(error: Ext4Error)
    ensures
        error matches Ext4Error::InspectPath { path, source } ==> text::contains(
            error.words(),
            text::lossy_text(path@),
        ) && text::ends_with(error.words(), source.message@),
        error matches Ext4Error::UnsupportedPath(path) ==> text::lossy_text(path@).is_prefix_of(
            error.words(),
        ),
        error matches Ext4Error::NotExt4(path) ==> text::lossy_text(path@).is_prefix_of(
            error.words(),
        ),
        error matches Ext4Error::Native { message, .. } ==> text::ends_with(
            error.words(),
            message@,
        ),
        error matches Ext4Error::Arena(inner) ==> error.words() == inner.words(),
        error matches Ext4Error::Aggregate(inner) ==> error.words() == inner.words(),
{
    let words = error.words();
    match error {
        Ext4Error::InspectPath { path, source } => {
            let front = "cannot inspect "@;
            let name = text::lossy_text(path@);
            text::lemma_contains_end(front, name);
            text::lemma_contains_more(Seq::empty(), front + name, ": "@, name);
            text::lemma_contains_more(Seq::empty(), front + name + ": "@, source.message@, name);
            assert(words.skip(words.len() - source.message@.len()) =~= source.message@);
        },
        Ext4Error::UnsupportedPath(path) => {
            let name = text::lossy_text(path@);
            assert(name =~= words.subrange(0, name.len() as int));
        },
        Ext4Error::NotExt4(path) => {
            let name = text::lossy_text(path@);
            assert(name =~= words.subrange(0, name.len() as int));
        },
        Ext4Error::Native { message, .. } => {
            assert(words.skip(words.len() - message@.len()) =~= message@);
        },
        _ => {},
    }
}

/// A failed call is told with its name, the library's text and its code.
pub proof fn law_failed_calls_are_told(operation: &'static str, code: i64, text: Seq<char>)
    ensures
        ({
            let words = (NativeError::Library { operation, code }).words(text);
            &&& operation@.is_prefix_of(words)
            &&& text::contains(words, text)
            &&& text::contains(words, text::signed_decimal(code as int))
        }),
        (NativeError::Library { operation, code }).library_code() == Some(code),
{
    let words = (NativeError::Library { operation, code }).words(text);
    assert(operation@ =~= words.subrange(0, operation@.len() as int));
    let number = text::signed_decimal(code as int);
    let front = operation@ + ": "@;
    let middle = " (libext2fs error "@;
    text::lemma_contains_end(front, text);
    text::lemma_contains_more(Seq::empty(), front + text, middle, text);
    text::lemma_contains_more(Seq::empty(), front + text + middle, number, text);
    text::lemma_contains_more(Seq::empty(), front + text + middle + number, ")"@, text);
    text::lemma_contains_end(front + text + middle, number);
    text::lemma_contains_more(Seq::empty(), front + text + middle + number, ")"@, number);
}

} // verus!
