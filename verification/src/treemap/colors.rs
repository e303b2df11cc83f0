//! What the colour of a tile stands for.

use vstd::prelude::*;

use crate::arena;
use crate::node::{NodeId, NodeKind};
use crate::scan::{FilesystemScan, ScanResult};

verus! {

pub const DIR_COLOR: usize = 0;

pub const REST_COLOR: usize = 1;

pub const IMAGE_COLOR: usize = 2;

pub const VIDEO_COLOR: usize = 3;

pub const AUDIO_COLOR: usize = 4;

pub const ARCHIVE_COLOR: usize = 5;

pub const DOC_COLOR: usize = 6;

pub const CODE_COLOR: usize = 7;

pub const EXEC_COLOR: usize = 8;

pub const UNKNOWN_COLOR: usize = 9;

pub const LINK_COLOR: usize = 10;

/// Number of tile colours.
pub const TYPE_COLOR_COUNT: usize = 11;

/// Number of colours that tell the levels of the share bars apart.
pub const SHARE_COLOR_COUNT: usize = 8;

/// The colour of a selection outline.
pub const SELECTION_COLOR: u32 = 0xffffff;

/// The longest extension that is looked at, in bytes.
pub const LONGEST_EXTENSION: usize = 8;

/// The red, green and blue of each kind of tile.
pub open spec fn type_colors() -> Seq<u32> {
    seq![
        0x3f474eu32,
        0x59636b,
        0xce62d5,
        0x8f70d5,
        0x32ad9f,
        0xc88a38,
        0x5c86cf,
        0x78a64d,
        0xd05c5c,
        0x7d8993,
        0xc5a83e,
    ]
}

/// The red, green and blue of each level of the share bars.
pub open spec fn share_colors() -> Seq<u32> {
    seq![0x5b6ee1u32, 0x1fa5a0, 0xe0607e, 0xd9913c, 0x9366d6, 0x3d9be0, 0x7ba83f, 0xde6a4b]
}

/// The colour of a tile, which depends on what it stands for and never on where it sits.
pub fn tile_hue(color: usize) -> (hue: u32)
    ensures
        hue == type_colors()[color as int % TYPE_COLOR_COUNT as int],
{
    match color % TYPE_COLOR_COUNT {
        0 => 0x3f474e,
        1 => 0x59636b,
        2 => 0xce62d5,
        3 => 0x8f70d5,
        4 => 0x32ad9f,
        5 => 0xc88a38,
        6 => 0x5c86cf,
        7 => 0x78a64d,
        8 => 0xd05c5c,
        9 => 0x7d8993,
        _ => 0xc5a83e,
    }
}

/// The colour of the share bar of a row this many levels below the root.
pub fn share_color(depth: usize) -> (color: u32)
    ensures
        color == share_colors()[depth as int % SHARE_COLOR_COUNT as int],
{
    match depth % SHARE_COLOR_COUNT {
        0 => 0x5b6ee1,
        1 => 0x1fa5a0,
        2 => 0xe0607e,
        3 => 0xd9913c,
        4 => 0x9366d6,
        5 => 0x3d9be0,
        6 => 0x7ba83f,
        _ => 0xde6a4b,
    }
}

/// `bytes` spell `text`, one byte for each character and upper case letters taken as lower case.
pub open spec fn spells(bytes: Seq<u8>, text: Seq<char>) -> bool {
    &&& bytes.len() == text.len()
    &&& forall|i: int| 0 <= i < bytes.len() ==> lower(#[trigger] bytes[i]) == text[i] as u32
}

/// The byte with an upper case ASCII letter replaced by its lower case.
pub open spec fn lower(byte: u8) -> int {
    if 0x41 <= byte <= 0x5a {
        byte + 0x20
    } else {
        byte as int
    }
}

fn is_spelled(bytes: &[u8], text: &str) -> (same: bool)
    ensures
        same == spells(bytes@, text@),
{
    let count: usize = text.unicode_len();
    if count != bytes.len() {
        return false;
    }
    let mut i: usize = 0;
    while i < count
        invariant
            i <= count,
            count == bytes.len(),
            count == text@.len(),
            forall|k: int| 0 <= k < i ==> lower(#[trigger] bytes@[k]) == text@[k] as u32,
        decreases count - i,
    {
        let byte: u8 = bytes[i];
        let low: u8 = if 0x41 <= byte && byte <= 0x5a {
            byte + 0x20
        } else {
            byte
        };
        if low as u32 != text.get_char(i) as u32 {
            assert(lower(bytes@[i as int]) != text@[i as int] as u32);
            return false;
        }
        i = i + 1;
    }
    true
}

/// An extension of an image.
pub open spec fn image_extension(extension: Seq<u8>) -> bool {
    ||| spells(extension, "png"@)
    ||| spells(extension, "jpg"@)
    ||| spells(extension, "jpeg"@)
    ||| spells(extension, "gif"@)
    ||| spells(extension, "bmp"@)
    ||| spells(extension, "svg"@)
    ||| spells(extension, "webp"@)
    ||| spells(extension, "tif"@)
    ||| spells(extension, "tiff"@)
    ||| spells(extension, "ico"@)
    ||| spells(extension, "avif"@)
    ||| spells(extension, "heic"@)
}

fn is_image_extension(extension: &[u8]) -> (is: bool)
    ensures
        is == image_extension(extension@),
{
    is_spelled(extension, "png")
        || is_spelled(extension, "jpg")
        || is_spelled(extension, "jpeg")
        || is_spelled(extension, "gif")
        || is_spelled(extension, "bmp")
        || is_spelled(extension, "svg")
        || is_spelled(extension, "webp")
        || is_spelled(extension, "tif")
        || is_spelled(extension, "tiff")
        || is_spelled(extension, "ico")
        || is_spelled(extension, "avif")
        || is_spelled(extension, "heic")
}

/// An extension of a video.
pub open spec fn video_extension(extension: Seq<u8>) -> bool {
    ||| spells(extension, "mp4"@)
    ||| spells(extension, "mkv"@)
    ||| spells(extension, "avi"@)
    ||| spells(extension, "mov"@)
    ||| spells(extension, "webm"@)
    ||| spells(extension, "m4v"@)
    ||| spells(extension, "mpg"@)
    ||| spells(extension, "mpeg"@)
    ||| spells(extension, "wmv"@)
}

fn is_video_extension(extension: &[u8]) -> (is: bool)
    ensures
        is == video_extension(extension@),
{
    is_spelled(extension, "mp4")
        || is_spelled(extension, "mkv")
        || is_spelled(extension, "avi")
        || is_spelled(extension, "mov")
        || is_spelled(extension, "webm")
        || is_spelled(extension, "m4v")
        || is_spelled(extension, "mpg")
        || is_spelled(extension, "mpeg")
        || is_spelled(extension, "wmv")
}

/// An extension of a sound.
pub open spec fn audio_extension(extension: Seq<u8>) -> bool {
    ||| spells(extension, "mp3"@)
    ||| spells(extension, "ogg"@)
    ||| spells(extension, "wav"@)
    ||| spells(extension, "flac"@)
    ||| spells(extension, "m4a"@)
    ||| spells(extension, "opus"@)
    ||| spells(extension, "aac"@)
}

fn is_audio_extension(extension: &[u8]) -> (is: bool)
    ensures
        is == audio_extension(extension@),
{
    is_spelled(extension, "mp3")
        || is_spelled(extension, "ogg")
        || is_spelled(extension, "wav")
        || is_spelled(extension, "flac")
        || is_spelled(extension, "m4a")
        || is_spelled(extension, "opus")
        || is_spelled(extension, "aac")
}

/// An extension of an archive.
pub open spec fn archive_extension(extension: Seq<u8>) -> bool {
    ||| spells(extension, "zip"@)
    ||| spells(extension, "tar"@)
    ||| spells(extension, "gz"@)
    ||| spells(extension, "tgz"@)
    ||| spells(extension, "bz2"@)
    ||| spells(extension, "xz"@)
    ||| spells(extension, "7z"@)
    ||| spells(extension, "rar"@)
    ||| spells(extension, "pak"@)
    ||| spells(extension, "vpk"@)
    ||| spells(extension, "cab"@)
    ||| spells(extension, "iso"@)
}

fn is_archive_extension(extension: &[u8]) -> (is: bool)
    ensures
        is == archive_extension(extension@),
{
    is_spelled(extension, "zip")
        || is_spelled(extension, "tar")
        || is_spelled(extension, "gz")
        || is_spelled(extension, "tgz")
        || is_spelled(extension, "bz2")
        || is_spelled(extension, "xz")
        || is_spelled(extension, "7z")
        || is_spelled(extension, "rar")
        || is_spelled(extension, "pak")
        || is_spelled(extension, "vpk")
        || is_spelled(extension, "cab")
        || is_spelled(extension, "iso")
}

/// An extension of a document.
pub open spec fn document_extension(extension: Seq<u8>) -> bool {
    ||| spells(extension, "txt"@)
    ||| spells(extension, "md"@)
    ||| spells(extension, "pdf"@)
    ||| spells(extension, "doc"@)
    ||| spells(extension, "docx"@)
    ||| spells(extension, "html"@)
    ||| spells(extension, "htm"@)
    ||| spells(extension, "json"@)
    ||| spells(extension, "xml"@)
    ||| spells(extension, "yml"@)
    ||| spells(extension, "yaml"@)
    ||| spells(extension, "toml"@)
    ||| spells(extension, "ini"@)
    ||| spells(extension, "cfg"@)
    ||| spells(extension, "log"@)
    ||| spells(extension, "csv"@)
    ||| spells(extension, "vdf"@)
}

fn is_document_extension(extension: &[u8]) -> (is: bool)
    ensures
        is == document_extension(extension@),
{
    is_spelled(extension, "txt")
        || is_spelled(extension, "md")
        || is_spelled(extension, "pdf")
        || is_spelled(extension, "doc")
        || is_spelled(extension, "docx")
        || is_spelled(extension, "html")
        || is_spelled(extension, "htm")
        || is_spelled(extension, "json")
        || is_spelled(extension, "xml")
        || is_spelled(extension, "yml")
        || is_spelled(extension, "yaml")
        || is_spelled(extension, "toml")
        || is_spelled(extension, "ini")
        || is_spelled(extension, "cfg")
        || is_spelled(extension, "log")
        || is_spelled(extension, "csv")
        || is_spelled(extension, "vdf")
}

/// An extension of source code.
pub open spec fn code_extension(extension: Seq<u8>) -> bool {
    ||| spells(extension, "rs"@)
    ||| spells(extension, "c"@)
    ||| spells(extension, "h"@)
    ||| spells(extension, "cpp"@)
    ||| spells(extension, "hpp"@)
    ||| spells(extension, "cc"@)
    ||| spells(extension, "js"@)
    ||| spells(extension, "ts"@)
    ||| spells(extension, "py"@)
    ||| spells(extension, "java"@)
    ||| spells(extension, "go"@)
    ||| spells(extension, "rb"@)
    ||| spells(extension, "lua"@)
    ||| spells(extension, "cs"@)
    ||| spells(extension, "css"@)
    ||| spells(extension, "nix"@)
}

fn is_code_extension(extension: &[u8]) -> (is: bool)
    ensures
        is == code_extension(extension@),
{
    is_spelled(extension, "rs")
        || is_spelled(extension, "c")
        || is_spelled(extension, "h")
        || is_spelled(extension, "cpp")
        || is_spelled(extension, "hpp")
        || is_spelled(extension, "cc")
        || is_spelled(extension, "js")
        || is_spelled(extension, "ts")
        || is_spelled(extension, "py")
        || is_spelled(extension, "java")
        || is_spelled(extension, "go")
        || is_spelled(extension, "rb")
        || is_spelled(extension, "lua")
        || is_spelled(extension, "cs")
        || is_spelled(extension, "css")
        || is_spelled(extension, "nix")
}

/// An extension of a program.
pub open spec fn program_extension(extension: Seq<u8>) -> bool {
    ||| spells(extension, "exe"@)
    ||| spells(extension, "msi"@)
    ||| spells(extension, "bat"@)
    ||| spells(extension, "cmd"@)
    ||| spells(extension, "sh"@)
    ||| spells(extension, "bin"@)
    ||| spells(extension, "dll"@)
    ||| spells(extension, "so"@)
    ||| spells(extension, "appimage"@)
}

fn is_program_extension(extension: &[u8]) -> (is: bool)
    ensures
        is == program_extension(extension@),
{
    is_spelled(extension, "exe")
        || is_spelled(extension, "msi")
        || is_spelled(extension, "bat")
        || is_spelled(extension, "cmd")
        || is_spelled(extension, "sh")
        || is_spelled(extension, "bin")
        || is_spelled(extension, "dll")
        || is_spelled(extension, "so")
        || is_spelled(extension, "appimage")
}

/// The extension of a file name: what follows its last full stop.
pub open spec fn extension(name: Seq<u8>) -> Option<Seq<u8>>
    decreases name.len(),
{
    if name.len() == 0 {
        None
    } else if name.last() == FULL_STOP {
        Some(Seq::empty())
    } else {
        match extension(name.drop_last()) {
            Some(rest) => Some(rest.push(name.last())),
            None => None,
        }
    }
}

pub const FULL_STOP: u8 = 0x2e;

/// The colour of a file of this name.
pub open spec fn file_color(name: Seq<u8>) -> usize {
    match extension(name) {
        None => UNKNOWN_COLOR,
        Some(found) => if found.len() > LONGEST_EXTENSION {
            UNKNOWN_COLOR
        } else if image_extension(found) {
            IMAGE_COLOR
        } else if video_extension(found) {
            VIDEO_COLOR
        } else if audio_extension(found) {
            AUDIO_COLOR
        } else if archive_extension(found) {
            ARCHIVE_COLOR
        } else if document_extension(found) {
            DOC_COLOR
        } else if code_extension(found) {
            CODE_COLOR
        } else if program_extension(found) {
            EXEC_COLOR
        } else {
            UNKNOWN_COLOR
        },
    }
}

/// A name without a full stop has no extension, and the extension starts behind the last one.
proof fn lemma_extension(name: Seq<u8>, start: int)
    requires
        0 <= start <= name.len(),
        forall|i: int| start <= i < name.len() ==> name[i] != FULL_STOP,
        start == 0 || name[start - 1] == FULL_STOP,
    ensures
        extension(name) == (if start == 0 {
            None::<Seq<u8>>
        } else {
            Some(name.subrange(start, name.len() as int))
        }),
    decreases name.len(),
{
    if name.len() > 0 {
        if start == name.len() {
            assert(name.subrange(start, name.len() as int) =~= Seq::<u8>::empty());
        } else {
            let shorter = name.drop_last();
            lemma_extension(shorter, start);
            if start > 0 {
                assert(name.subrange(start, name.len() as int) =~= shorter.subrange(
                    start,
                    shorter.len() as int,
                ).push(name.last()));
            }
        }
    }
}

/// Classifies a file by its extension, letters in either case.
pub fn file_type_index(name: &[u8]) -> (color: usize)
    ensures
        color == file_color(name@),
{
    let mut start: usize = name.len();
    while start > 0 && name[start - 1] != FULL_STOP
        invariant
            start <= name.len(),
            forall|i: int| start <= i < name.len() ==> name@[i] != FULL_STOP,
        decreases start,
    {
        start = start - 1;
    }
    proof {
        lemma_extension(name@, start as int);
    }
    if start == 0 || name.len() - start > LONGEST_EXTENSION {
        return UNKNOWN_COLOR;
    }
    let found = vstd::slice::slice_subrange(name, start, name.len());
    if is_image_extension(found) {
        IMAGE_COLOR
    } else if is_video_extension(found) {
        VIDEO_COLOR
    } else if is_audio_extension(found) {
        AUDIO_COLOR
    } else if is_archive_extension(found) {
        ARCHIVE_COLOR
    } else if is_document_extension(found) {
        DOC_COLOR
    } else if is_code_extension(found) {
        CODE_COLOR
    } else if is_program_extension(found) {
        EXEC_COLOR
    } else {
        UNKNOWN_COLOR
    }
}

/// What the colour of a node is told by can be read: the name, if it is a file.
pub open spec fn color_told(result: ScanResult, id: NodeId) -> bool {
    let nodes = result.arena.node_list();
    id.0 < nodes.len() && nodes[id.0 as int].kind == NodeKind::File ==> arena::name_stored(
        result.arena.name_bytes(),
        nodes[id.0 as int].name,
    )
}

/// The colour of the tile of a node.
pub fn type_color_index(scan: &FilesystemScan, id: NodeId) -> (color: usize)
    requires
        color_told(scan.result, id),
    ensures
        color == node_color(scan.result, id),
{
    let nodes = scan.result.arena.nodes();
    if id.index() >= nodes.len() {
        return UNKNOWN_COLOR;
    }
    match nodes[id.index()].kind {
        NodeKind::Directory | NodeKind::Other => DIR_COLOR,
        NodeKind::Symlink => LINK_COLOR,
        NodeKind::File => file_type_index(scan.result.arena.name(id)),
    }
}

/// What the tile of a node is coloured by: its kind, and for a file its extension.
pub open spec fn node_color(result: ScanResult, id: NodeId) -> usize {
    let nodes = result.arena.node_list();
    if id.0 >= nodes.len() {
        UNKNOWN_COLOR
    } else {
        match nodes[id.0 as int].kind {
            NodeKind::Directory | NodeKind::Other => DIR_COLOR,
            NodeKind::Symlink => LINK_COLOR,
            NodeKind::File => file_color(
                arena::name_at(result.arena.name_bytes(), nodes[id.0 as int].name),
            ),
        }
    }
}

/// Letter case does not matter: names that differ only in the case of their letters get the same
/// colour.
pub proof fn law_color_ignores_case(a: Seq<u8>, b: Seq<u8>)
    requires
        a.len() == b.len(),
        forall|i: int| 0 <= i < a.len() ==> lower(#[trigger] a[i]) == lower(b[i]),
    ensures
        file_color(a) == file_color(b),
{
    lemma_extension_case(a, b);
    if let (Some(x), Some(y)) = (extension(a), extension(b)) {
        assert forall|text: Seq<char>| #[trigger] spells(x, text) == spells(y, text) by {
            if spells(x, text) {
                assert forall|i: int| 0 <= i < y.len() implies lower(#[trigger] y[i]) == text[i] as u32 by {
                    assert(lower(x[i]) == text[i] as u32);
                }
            }
            if spells(y, text) {
                assert forall|i: int| 0 <= i < x.len() implies lower(#[trigger] x[i]) == text[i] as u32 by {
                    assert(lower(y[i]) == text[i] as u32);
                }
            }
        }
    }
}

proof fn lemma_extension_case(a: Seq<u8>, b: Seq<u8>)
    requires
        a.len() == b.len(),
        forall|i: int| 0 <= i < a.len() ==> lower(#[trigger] a[i]) == lower(b[i]),
    ensures
        match (extension(a), extension(b)) {
            (Some(x), Some(y)) => x.len() == y.len() && forall|i: int|
                0 <= i < x.len() ==> lower(#[trigger] x[i]) == lower(y[i]),
            (None, None) => true,
            _ => false,
        },
    decreases a.len(),
{
    if a.len() > 0 {
        assert(lower(a[a.len() - 1]) == lower(b[a.len() - 1]));
        let c = a.drop_last();
        let d = b.drop_last();
        assert forall|i: int| 0 <= i < c.len() implies lower(#[trigger] c[i]) == lower(d[i]) by {
            assert(c[i] == a[i]);
        }
        lemma_extension_case(c, d);
    }
}

/// The extension of a name is what follows its last full stop; a name without one has none.
pub proof fn law_extensions_follow_the_last_stop(stem: Seq<u8>, end: Seq<u8>)
    requires
        forall|i: int| 0 <= i < end.len() ==> #[trigger] end[i] != 0x2e,
    ensures
        extension(stem + seq![0x2eu8] + end) == Some(end),
        extension(end) is None,
{
    let name = stem + seq![0x2eu8] + end;
    let start = stem.len() + 1;
    assert forall|i: int| start <= i < name.len() implies name[i] != FULL_STOP by {
        assert(name[i] == end[i - start]);
    }
    lemma_extension(name, start as int);
    assert(name.subrange(start as int, name.len() as int) =~= end);
    lemma_extension(end, 0);
}

/// A file without an extension, or with one of more than eight bytes, has no colour of its own.
pub proof fn law_odd_names_have_no_colour(name: Seq<u8>)
    requires
        extension(name) matches Some(end) ==> end.len() == 0 || end.len() > 8,
    ensures
        file_color(name) == 9,
{
    lemma_spelled_lengths();
}

/// What the texts hold.
proof fn lemma_spelled_lengths()
    ensures
        "png"@.len() == 3,
        "jpg"@.len() == 3,
        "jpeg"@.len() == 4,
        "gif"@.len() == 3,
        "bmp"@.len() == 3,
        "svg"@.len() == 3,
        "webp"@.len() == 4,
        "tif"@.len() == 3,
        "tiff"@.len() == 4,
        "ico"@.len() == 3,
        "avif"@.len() == 4,
        "heic"@.len() == 4,
        "mp4"@.len() == 3,
        "mkv"@.len() == 3,
        "avi"@.len() == 3,
        "mov"@.len() == 3,
        "webm"@.len() == 4,
        "m4v"@.len() == 3,
        "mpg"@.len() == 3,
        "mpeg"@.len() == 4,
        "wmv"@.len() == 3,
        "mp3"@.len() == 3,
        "ogg"@.len() == 3,
        "wav"@.len() == 3,
        "flac"@.len() == 4,
        "m4a"@.len() == 3,
        "opus"@.len() == 4,
        "aac"@.len() == 3,
        "zip"@.len() == 3,
        "tar"@.len() == 3,
        "gz"@.len() == 2,
        "tgz"@.len() == 3,
        "bz2"@.len() == 3,
        "xz"@.len() == 2,
        "7z"@.len() == 2,
        "rar"@.len() == 3,
        "pak"@.len() == 3,
        "vpk"@.len() == 3,
        "cab"@.len() == 3,
        "iso"@.len() == 3,
        "txt"@.len() == 3,
        "md"@.len() == 2,
        "pdf"@.len() == 3,
        "doc"@.len() == 3,
        "docx"@.len() == 4,
        "html"@.len() == 4,
        "htm"@.len() == 3,
        "json"@.len() == 4,
        "xml"@.len() == 3,
        "yml"@.len() == 3,
        "yaml"@.len() == 4,
        "toml"@.len() == 4,
        "ini"@.len() == 3,
        "cfg"@.len() == 3,
        "log"@.len() == 3,
        "csv"@.len() == 3,
        "vdf"@.len() == 3,
        "rs"@.len() == 2,
        "c"@.len() == 1,
        "h"@.len() == 1,
        "cpp"@.len() == 3,
        "hpp"@.len() == 3,
        "cc"@.len() == 2,
        "js"@.len() == 2,
        "ts"@.len() == 2,
        "py"@.len() == 2,
        "java"@.len() == 4,
        "go"@.len() == 2,
        "rb"@.len() == 2,
        "lua"@.len() == 3,
        "cs"@.len() == 2,
        "css"@.len() == 3,
        "nix"@.len() == 3,
        "exe"@.len() == 3,
        "msi"@.len() == 3,
        "bat"@.len() == 3,
        "cmd"@.len() == 3,
        "sh"@.len() == 2,
        "bin"@.len() == 3,
        "dll"@.len() == 3,
        "so"@.len() == 2,
        "appimage"@.len() == 8,
{
    reveal_strlit("png");
    reveal_strlit("jpg");
    reveal_strlit("jpeg");
    reveal_strlit("gif");
    reveal_strlit("bmp");
    reveal_strlit("svg");
    reveal_strlit("webp");
    reveal_strlit("tif");
    reveal_strlit("tiff");
    reveal_strlit("ico");
    reveal_strlit("avif");
    reveal_strlit("heic");
    reveal_strlit("mp4");
    reveal_strlit("mkv");
    reveal_strlit("avi");
    reveal_strlit("mov");
    reveal_strlit("webm");
    reveal_strlit("m4v");
    reveal_strlit("mpg");
    reveal_strlit("mpeg");
    reveal_strlit("wmv");
    reveal_strlit("mp3");
    reveal_strlit("ogg");
    reveal_strlit("wav");
    reveal_strlit("flac");
    reveal_strlit("m4a");
    reveal_strlit("opus");
    reveal_strlit("aac");
    reveal_strlit("zip");
    reveal_strlit("tar");
    reveal_strlit("gz");
    reveal_strlit("tgz");
    reveal_strlit("bz2");
    reveal_strlit("xz");
    reveal_strlit("7z");
    reveal_strlit("rar");
    reveal_strlit("pak");
    reveal_strlit("vpk");
    reveal_strlit("cab");
    reveal_strlit("iso");
    reveal_strlit("txt");
    reveal_strlit("md");
    reveal_strlit("pdf");
    reveal_strlit("doc");
    reveal_strlit("docx");
    reveal_strlit("html");
    reveal_strlit("htm");
    reveal_strlit("json");
    reveal_strlit("xml");
    reveal_strlit("yml");
    reveal_strlit("yaml");
    reveal_strlit("toml");
    reveal_strlit("ini");
    reveal_strlit("cfg");
    reveal_strlit("log");
    reveal_strlit("csv");
    reveal_strlit("vdf");
    reveal_strlit("rs");
    reveal_strlit("c");
    reveal_strlit("h");
    reveal_strlit("cpp");
    reveal_strlit("hpp");
    reveal_strlit("cc");
    reveal_strlit("js");
    reveal_strlit("ts");
    reveal_strlit("py");
    reveal_strlit("java");
    reveal_strlit("go");
    reveal_strlit("rb");
    reveal_strlit("lua");
    reveal_strlit("cs");
    reveal_strlit("css");
    reveal_strlit("nix");
    reveal_strlit("exe");
    reveal_strlit("msi");
    reveal_strlit("bat");
    reveal_strlit("cmd");
    reveal_strlit("sh");
    reveal_strlit("bin");
    reveal_strlit("dll");
    reveal_strlit("so");
    reveal_strlit("appimage");
}

/// Images have a colour of their own.
pub proof fn law_image_files_are_told_by_extension(name: Seq<u8>, end: Seq<u8>)
    requires
        extension(name) == Some(end),
        spells(end, "png"@)
            || spells(end, "jpg"@)
            || spells(end, "jpeg"@)
            || spells(end, "gif"@)
            || spells(end, "bmp"@)
            || spells(end, "svg"@)
            || spells(end, "webp"@)
            || spells(end, "tif"@)
            || spells(end, "tiff"@)
            || spells(end, "ico"@)
            || spells(end, "avif"@)
            || spells(end, "heic"@),
    ensures
        file_color(name) == 2,
{
    lemma_spelled_lengths();
}

/// Videos have a colour of their own.
pub proof fn law_video_files_are_told_by_extension(name: Seq<u8>, end: Seq<u8>)
    requires
        extension(name) == Some(end),
        spells(end, "mp4"@)
            || spells(end, "mkv"@)
            || spells(end, "avi"@)
            || spells(end, "mov"@)
            || spells(end, "webm"@)
            || spells(end, "m4v"@)
            || spells(end, "mpg"@)
            || spells(end, "mpeg"@)
            || spells(end, "wmv"@),
    ensures
        file_color(name) == 3,
{
    lemma_spelled_lengths();
    lemma_no_earlier_video(end);
}

proof fn lemma_no_earlier_video(end: Seq<u8>)
    requires
        video_extension(end),
    ensures
        !image_extension(end),
{
    reveal_strlit("png");
    reveal_strlit("jpg");
    reveal_strlit("jpeg");
    reveal_strlit("gif");
    reveal_strlit("bmp");
    reveal_strlit("svg");
    reveal_strlit("webp");
    reveal_strlit("tif");
    reveal_strlit("tiff");
    reveal_strlit("ico");
    reveal_strlit("avif");
    reveal_strlit("heic");
    reveal_strlit("mp4");
    reveal_strlit("mkv");
    reveal_strlit("avi");
    reveal_strlit("mov");
    reveal_strlit("webm");
    reveal_strlit("m4v");
    reveal_strlit("mpg");
    reveal_strlit("mpeg");
    reveal_strlit("wmv");
    assert(end.len() > 0 ==> lower(end[0]) >= 0);
    assert(end.len() > 1 ==> lower(end[1]) >= 0);
    assert(end.len() > 2 ==> lower(end[2]) >= 0);
    assert(end.len() > 3 ==> lower(end[3]) >= 0);
}

/// Sounds have a colour of their own.
pub proof fn law_audio_files_are_told_by_extension(name: Seq<u8>, end: Seq<u8>)
    requires
        extension(name) == Some(end),
        spells(end, "mp3"@)
            || spells(end, "ogg"@)
            || spells(end, "wav"@)
            || spells(end, "flac"@)
            || spells(end, "m4a"@)
            || spells(end, "opus"@)
            || spells(end, "aac"@),
    ensures
        file_color(name) == 4,
{
    lemma_spelled_lengths();
    lemma_no_earlier_audio(end);
}

proof fn lemma_no_earlier_audio(end: Seq<u8>)
    requires
        audio_extension(end),
    ensures
        !image_extension(end),
        !video_extension(end),
{
    reveal_strlit("png");
    reveal_strlit("jpg");
    reveal_strlit("jpeg");
    reveal_strlit("gif");
    reveal_strlit("bmp");
    reveal_strlit("svg");
    reveal_strlit("webp");
    reveal_strlit("tif");
    reveal_strlit("tiff");
    reveal_strlit("ico");
    reveal_strlit("avif");
    reveal_strlit("heic");
    reveal_strlit("mp4");
    reveal_strlit("mkv");
    reveal_strlit("avi");
    reveal_strlit("mov");
    reveal_strlit("webm");
    reveal_strlit("m4v");
    reveal_strlit("mpg");
    reveal_strlit("mpeg");
    reveal_strlit("wmv");
    reveal_strlit("mp3");
    reveal_strlit("ogg");
    reveal_strlit("wav");
    reveal_strlit("flac");
    reveal_strlit("m4a");
    reveal_strlit("opus");
    reveal_strlit("aac");
    assert(end.len() > 0 ==> lower(end[0]) >= 0);
    assert(end.len() > 1 ==> lower(end[1]) >= 0);
    assert(end.len() > 2 ==> lower(end[2]) >= 0);
    assert(end.len() > 3 ==> lower(end[3]) >= 0);
}

/// Archives have a colour of their own.
pub proof fn law_archive_files_are_told_by_extension(name: Seq<u8>, end: Seq<u8>)
    requires
        extension(name) == Some(end),
        spells(end, "zip"@)
            || spells(end, "tar"@)
            || spells(end, "gz"@)
            || spells(end, "tgz"@)
            || spells(end, "bz2"@)
            || spells(end, "xz"@)
            || spells(end, "7z"@)
            || spells(end, "rar"@)
            || spells(end, "pak"@)
            || spells(end, "vpk"@)
            || spells(end, "cab"@)
            || spells(end, "iso"@),
    ensures
        file_color(name) == 5,
{
    lemma_spelled_lengths();
    lemma_no_earlier_archive(end);
}

proof fn lemma_no_earlier_archive(end: Seq<u8>)
    requires
        archive_extension(end),
    ensures
        !image_extension(end),
        !video_extension(end),
        !audio_extension(end),
{
    reveal_strlit("png");
    reveal_strlit("jpg");
    reveal_strlit("jpeg");
    reveal_strlit("gif");
    reveal_strlit("bmp");
    reveal_strlit("svg");
    reveal_strlit("webp");
    reveal_strlit("tif");
    reveal_strlit("tiff");
    reveal_strlit("ico");
    reveal_strlit("avif");
    reveal_strlit("heic");
    reveal_strlit("mp4");
    reveal_strlit("mkv");
    reveal_strlit("avi");
    reveal_strlit("mov");
    reveal_strlit("webm");
    reveal_strlit("m4v");
    reveal_strlit("mpg");
    reveal_strlit("mpeg");
    reveal_strlit("wmv");
    reveal_strlit("mp3");
    reveal_strlit("ogg");
    reveal_strlit("wav");
    reveal_strlit("flac");
    reveal_strlit("m4a");
    reveal_strlit("opus");
    reveal_strlit("aac");
    reveal_strlit("zip");
    reveal_strlit("tar");
    reveal_strlit("gz");
    reveal_strlit("tgz");
    reveal_strlit("bz2");
    reveal_strlit("xz");
    reveal_strlit("7z");
    reveal_strlit("rar");
    reveal_strlit("pak");
    reveal_strlit("vpk");
    reveal_strlit("cab");
    reveal_strlit("iso");
    assert(end.len() > 0 ==> lower(end[0]) >= 0);
    assert(end.len() > 1 ==> lower(end[1]) >= 0);
    assert(end.len() > 2 ==> lower(end[2]) >= 0);
    assert(end.len() > 3 ==> lower(end[3]) >= 0);
}

/// Documents have a colour of their own.
pub proof fn law_document_files_are_told_by_extension(name: Seq<u8>, end: Seq<u8>)
    requires
        extension(name) == Some(end),
        spells(end, "txt"@)
            || spells(end, "md"@)
            || spells(end, "pdf"@)
            || spells(end, "doc"@)
            || spells(end, "docx"@)
            || spells(end, "html"@)
            || spells(end, "htm"@)
            || spells(end, "json"@)
            || spells(end, "xml"@)
            || spells(end, "yml"@)
            || spells(end, "yaml"@)
            || spells(end, "toml"@)
            || spells(end, "ini"@)
            || spells(end, "cfg"@)
            || spells(end, "log"@)
            || spells(end, "csv"@)
            || spells(end, "vdf"@),
    ensures
        file_color(name) == 6,
{
    lemma_spelled_lengths();
    lemma_no_earlier_document(end);
}

proof fn lemma_no_earlier_document(end: Seq<u8>)
    requires
        document_extension(end),
    ensures
        !image_extension(end),
        !video_extension(end),
        !audio_extension(end),
        !archive_extension(end),
{
    reveal_strlit("png");
    reveal_strlit("jpg");
    reveal_strlit("jpeg");
    reveal_strlit("gif");
    reveal_strlit("bmp");
    reveal_strlit("svg");
    reveal_strlit("webp");
    reveal_strlit("tif");
    reveal_strlit("tiff");
    reveal_strlit("ico");
    reveal_strlit("avif");
    reveal_strlit("heic");
    reveal_strlit("mp4");
    reveal_strlit("mkv");
    reveal_strlit("avi");
    reveal_strlit("mov");
    reveal_strlit("webm");
    reveal_strlit("m4v");
    reveal_strlit("mpg");
    reveal_strlit("mpeg");
    reveal_strlit("wmv");
    reveal_strlit("mp3");
    reveal_strlit("ogg");
    reveal_strlit("wav");
    reveal_strlit("flac");
    reveal_strlit("m4a");
    reveal_strlit("opus");
    reveal_strlit("aac");
    reveal_strlit("zip");
    reveal_strlit("tar");
    reveal_strlit("gz");
    reveal_strlit("tgz");
    reveal_strlit("bz2");
    reveal_strlit("xz");
    reveal_strlit("7z");
    reveal_strlit("rar");
    reveal_strlit("pak");
    reveal_strlit("vpk");
    reveal_strlit("cab");
    reveal_strlit("iso");
    reveal_strlit("txt");
    reveal_strlit("md");
    reveal_strlit("pdf");
    reveal_strlit("doc");
    reveal_strlit("docx");
    reveal_strlit("html");
    reveal_strlit("htm");
    reveal_strlit("json");
    reveal_strlit("xml");
    reveal_strlit("yml");
    reveal_strlit("yaml");
    reveal_strlit("toml");
    reveal_strlit("ini");
    reveal_strlit("cfg");
    reveal_strlit("log");
    reveal_strlit("csv");
    reveal_strlit("vdf");
    assert(end.len() > 0 ==> lower(end[0]) >= 0);
    assert(end.len() > 1 ==> lower(end[1]) >= 0);
    assert(end.len() > 2 ==> lower(end[2]) >= 0);
    assert(end.len() > 3 ==> lower(end[3]) >= 0);
}

/// Source code have a colour of their own.
pub proof fn law_code_files_are_told_by_extension(name: Seq<u8>, end: Seq<u8>)
    requires
        extension(name) == Some(end),
        spells(end, "rs"@)
            || spells(end, "c"@)
            || spells(end, "h"@)
            || spells(end, "cpp"@)
            || spells(end, "hpp"@)
            || spells(end, "cc"@)
            || spells(end, "js"@)
            || spells(end, "ts"@)
            || spells(end, "py"@)
            || spells(end, "java"@)
            || spells(end, "go"@)
            || spells(end, "rb"@)
            || spells(end, "lua"@)
            || spells(end, "cs"@)
            || spells(end, "css"@)
            || spells(end, "nix"@),
    ensures
        file_color(name) == 7,
{
    lemma_spelled_lengths();
    lemma_no_earlier_code(end);
}

proof fn lemma_no_earlier_code(end: Seq<u8>)
    requires
        code_extension(end),
    ensures
        !image_extension(end),
        !video_extension(end),
        !audio_extension(end),
        !archive_extension(end),
        !document_extension(end),
{
    reveal_strlit("png");
    reveal_strlit("jpg");
    reveal_strlit("jpeg");
    reveal_strlit("gif");
    reveal_strlit("bmp");
    reveal_strlit("svg");
    reveal_strlit("webp");
    reveal_strlit("tif");
    reveal_strlit("tiff");
    reveal_strlit("ico");
    reveal_strlit("avif");
    reveal_strlit("heic");
    reveal_strlit("mp4");
    reveal_strlit("mkv");
    reveal_strlit("avi");
    reveal_strlit("mov");
    reveal_strlit("webm");
    reveal_strlit("m4v");
    reveal_strlit("mpg");
    reveal_strlit("mpeg");
    reveal_strlit("wmv");
    reveal_strlit("mp3");
    reveal_strlit("ogg");
    reveal_strlit("wav");
    reveal_strlit("flac");
    reveal_strlit("m4a");
    reveal_strlit("opus");
    reveal_strlit("aac");
    reveal_strlit("zip");
    reveal_strlit("tar");
    reveal_strlit("gz");
    reveal_strlit("tgz");
    reveal_strlit("bz2");
    reveal_strlit("xz");
    reveal_strlit("7z");
    reveal_strlit("rar");
    reveal_strlit("pak");
    reveal_strlit("vpk");
    reveal_strlit("cab");
    reveal_strlit("iso");
    reveal_strlit("txt");
    reveal_strlit("md");
    reveal_strlit("pdf");
    reveal_strlit("doc");
    reveal_strlit("docx");
    reveal_strlit("html");
    reveal_strlit("htm");
    reveal_strlit("json");
    reveal_strlit("xml");
    reveal_strlit("yml");
    reveal_strlit("yaml");
    reveal_strlit("toml");
    reveal_strlit("ini");
    reveal_strlit("cfg");
    reveal_strlit("log");
    reveal_strlit("csv");
    reveal_strlit("vdf");
    reveal_strlit("rs");
    reveal_strlit("c");
    reveal_strlit("h");
    reveal_strlit("cpp");
    reveal_strlit("hpp");
    reveal_strlit("cc");
    reveal_strlit("js");
    reveal_strlit("ts");
    reveal_strlit("py");
    reveal_strlit("java");
    reveal_strlit("go");
    reveal_strlit("rb");
    reveal_strlit("lua");
    reveal_strlit("cs");
    reveal_strlit("css");
    reveal_strlit("nix");
    assert(end.len() > 0 ==> lower(end[0]) >= 0);
    assert(end.len() > 1 ==> lower(end[1]) >= 0);
    assert(end.len() > 2 ==> lower(end[2]) >= 0);
    assert(end.len() > 3 ==> lower(end[3]) >= 0);
}

/// Programs have a colour of their own.
pub proof fn law_program_files_are_told_by_extension(name: Seq<u8>, end: Seq<u8>)
    requires
        extension(name) == Some(end),
        spells(end, "exe"@)
            || spells(end, "msi"@)
            || spells(end, "bat"@)
            || spells(end, "cmd"@)
            || spells(end, "sh"@)
            || spells(end, "bin"@)
            || spells(end, "dll"@)
            || spells(end, "so"@)
            || spells(end, "appimage"@),
    ensures
        file_color(name) == 8,
{
    lemma_spelled_lengths();
    lemma_no_earlier_program(end);
}

proof fn lemma_no_earlier_program(end: Seq<u8>)
    requires
        program_extension(end),
    ensures
        !image_extension(end),
        !video_extension(end),
        !audio_extension(end),
        !archive_extension(end),
        !document_extension(end),
        !code_extension(end),
{
    reveal_strlit("png");
    reveal_strlit("jpg");
    reveal_strlit("jpeg");
    reveal_strlit("gif");
    reveal_strlit("bmp");
    reveal_strlit("svg");
    reveal_strlit("webp");
    reveal_strlit("tif");
    reveal_strlit("tiff");
    reveal_strlit("ico");
    reveal_strlit("avif");
    reveal_strlit("heic");
    reveal_strlit("mp4");
    reveal_strlit("mkv");
    reveal_strlit("avi");
    reveal_strlit("mov");
    reveal_strlit("webm");
    reveal_strlit("m4v");
    reveal_strlit("mpg");
    reveal_strlit("mpeg");
    reveal_strlit("wmv");
    reveal_strlit("mp3");
    reveal_strlit("ogg");
    reveal_strlit("wav");
    reveal_strlit("flac");
    reveal_strlit("m4a");
    reveal_strlit("opus");
    reveal_strlit("aac");
    reveal_strlit("zip");
    reveal_strlit("tar");
    reveal_strlit("gz");
    reveal_strlit("tgz");
    reveal_strlit("bz2");
    reveal_strlit("xz");
    reveal_strlit("7z");
    reveal_strlit("rar");
    reveal_strlit("pak");
    reveal_strlit("vpk");
    reveal_strlit("cab");
    reveal_strlit("iso");
    reveal_strlit("txt");
    reveal_strlit("md");
    reveal_strlit("pdf");
    reveal_strlit("doc");
    reveal_strlit("docx");
    reveal_strlit("html");
    reveal_strlit("htm");
    reveal_strlit("json");
    reveal_strlit("xml");
    reveal_strlit("yml");
    reveal_strlit("yaml");
    reveal_strlit("toml");
    reveal_strlit("ini");
    reveal_strlit("cfg");
    reveal_strlit("log");
    reveal_strlit("csv");
    reveal_strlit("vdf");
    reveal_strlit("rs");
    reveal_strlit("c");
    reveal_strlit("h");
    reveal_strlit("cpp");
    reveal_strlit("hpp");
    reveal_strlit("cc");
    reveal_strlit("js");
    reveal_strlit("ts");
    reveal_strlit("py");
    reveal_strlit("java");
    reveal_strlit("go");
    reveal_strlit("rb");
    reveal_strlit("lua");
    reveal_strlit("cs");
    reveal_strlit("css");
    reveal_strlit("nix");
    reveal_strlit("exe");
    reveal_strlit("msi");
    reveal_strlit("bat");
    reveal_strlit("cmd");
    reveal_strlit("sh");
    reveal_strlit("bin");
    reveal_strlit("dll");
    reveal_strlit("so");
    reveal_strlit("appimage");
    assert(end.len() > 0 ==> lower(end[0]) >= 0);
    assert(end.len() > 1 ==> lower(end[1]) >= 0);
    assert(end.len() > 2 ==> lower(end[2]) >= 0);
    assert(end.len() > 3 ==> lower(end[3]) >= 0);
}

/// Colours go by kind: directories and special files are drawn as directories, links as links, and
/// files by their names.
pub proof fn law_colours_go_by_kind(result: ScanResult, id: NodeId)
    requires
        id.0 < result.arena.node_list().len(),
    ensures
        ({
            let node = result.arena.node_list()[id.0 as int];
            &&& node.kind == NodeKind::Directory || node.kind == NodeKind::Other ==> node_color(
                result,
                id,
            ) == 0
            &&& node.kind == NodeKind::Symlink ==> node_color(result, id) == 10
            &&& node.kind == NodeKind::File ==> node_color(result, id) == file_color(
                arena::name_at(result.arena.name_bytes(), node.name),
            )
        }),
{
}

/// No two sorts of tiles and no two levels of share bars look the same.
pub proof fn law_colours_differ(a: int, b: int)
    ensures
        type_colors().len() == 11,
        share_colors().len() == 8,
        0 <= a < b < 11 ==> type_colors()[a] != type_colors()[b],
        0 <= a < b < 8 ==> share_colors()[a] != share_colors()[b],
{
}

} // verus!
