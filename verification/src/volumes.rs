//! The volumes that can be scanned.

use vstd::prelude::*;

use crate::order;
use crate::order::Precedence;
use crate::paths;
use crate::text;

verus! {

/// A volume to choose from.
#[derive(Debug)]
pub struct Volume {
    pub device: Vec<u8>,
    /// Where the volume is mounted; a volume named by the user need not be.
    pub mount_point: Option<Vec<u8>>,
    /// What to scan in place of the device.
    pub scan_path: Option<Vec<u8>>,
    pub filesystem: String,
}

/// A volume as a value.
#[verifier::ext_equal]
pub struct VolumeView {
    pub device: Seq<u8>,
    pub mount_point: Option<Seq<u8>>,
    pub scan_path: Option<Seq<u8>>,
    pub filesystem: Seq<char>,
}

/// The bytes of an optional path.
pub open spec fn path_view(path: Option<Vec<u8>>) -> Option<Seq<u8>> {
    match path {
        Some(path) => Some(path@),
        None => None,
    }
}

impl View for Volume {
    type V = VolumeView;

    open spec fn view(&self) -> VolumeView {
        VolumeView {
            device: self.device@,
            mount_point: path_view(self.mount_point),
            scan_path: path_view(self.scan_path),
            filesystem: self.filesystem@,
        }
    }
}

/// Volumes as values.
pub open spec fn volume_views(volumes: Seq<Volume>) -> Seq<VolumeView> {
    Seq::new(volumes.len(), |i: int| volumes[i]@)
}

pub const BACKSLASH: u8 = 0x5c;

pub const DIGIT_ZERO: u8 = 0x30;

pub const DIGIT_SEVEN: u8 = 0x37;

/// The byte is an octal digit.
pub open spec fn is_octal(byte: u8) -> bool {
    DIGIT_ZERO <= byte <= DIGIT_SEVEN
}

/// A field starts with a backslash and three octal digits.
pub open spec fn starts_escape(field: Seq<u8>) -> bool {
    field.len() > 3 && field[0] == BACKSLASH && is_octal(field[1]) && is_octal(field[2])
        && is_octal(field[3])
}

/// The byte that an escape stands for. Numbers that do not fit into a byte wrap.
pub open spec fn escaped_byte(field: Seq<u8>) -> u8 {
    (((field[1] - DIGIT_ZERO) * 64 + (field[2] - DIGIT_ZERO) * 8 + (field[3] - DIGIT_ZERO)) % 256)
        as u8
}

/// A field of the mount table without escapes.
pub open spec fn unescaped(field: Seq<u8>) -> Seq<u8>
    decreases field.len(),
{
    if field.len() == 0 {
        Seq::empty()
    } else if starts_escape(field) {
        seq![escaped_byte(field)] + unescaped(field.skip(4))
    } else {
        seq![field[0]] + unescaped(field.drop_first())
    }
}

/// What a field of the mount table says.
pub open spec fn field_text(field: Seq<char>) -> Seq<char> {
    text::lossy_text(unescaped(vstd::utf8::encode_utf8(field)))
}

/// Decodes a field of the mount table, in which some bytes are written as a backslash and three
/// octal digits.
pub fn decode_mount_field(field: &str) -> (decoded: String)
    ensures
        decoded@ == field_text(field@),
        vstd::utf8::valid_utf8(unescaped(vstd::utf8::encode_utf8(field@))) ==> decoded@
            == vstd::utf8::decode_utf8(unescaped(vstd::utf8::encode_utf8(field@))),
{
    let bytes = field.as_bytes();
    let mut decoded: Vec<u8> = Vec::new();
    let mut index: usize = 0;
    proof {
        assert(bytes@.skip(0) =~= bytes@);
        assert(Seq::<u8>::empty() + unescaped(bytes@) =~= unescaped(bytes@));
    }
    while index < bytes.len()
        invariant
            index <= bytes@.len(),
            decoded@ + unescaped(bytes@.skip(index as int)) == unescaped(bytes@),
        decreases bytes@.len() - index,
    {
        let ghost rest = bytes@.skip(index as int);
        let ghost before = decoded@;
        let left: usize = bytes.len() - index;
        let mut escape: bool = false;
        if bytes[index] == BACKSLASH && left > 3 {
            escape = bytes[index + 1] >= DIGIT_ZERO && bytes[index + 1] <= DIGIT_SEVEN
                && bytes[index + 2] >= DIGIT_ZERO && bytes[index + 2] <= DIGIT_SEVEN
                && bytes[index + 3] >= DIGIT_ZERO && bytes[index + 3] <= DIGIT_SEVEN;
        }
        assert(escape == starts_escape(rest));
        if escape {
            let value: u32 = (bytes[index + 1] - DIGIT_ZERO) as u32 * 64 + (bytes[index + 2]
                - DIGIT_ZERO) as u32 * 8 + (bytes[index + 3] - DIGIT_ZERO) as u32;
            let byte: u8 = (value % 256) as u8;
            decoded.push(byte);
            index = index + 4;
            proof {
                assert(rest.skip(4) =~= bytes@.skip(index as int));
                let tail = unescaped(rest.skip(4));
                assert(before + (seq![byte] + tail) =~= decoded@ + tail);
            }
        } else {
            decoded.push(bytes[index]);
            index = index + 1;
            proof {
                assert(rest.drop_first() =~= bytes@.skip(index as int));
                let tail = unescaped(rest.drop_first());
                assert(before + (seq![rest[0]] + tail) =~= decoded@ + tail);
            }
        }
    }
    proof {
        assert(bytes@.skip(index as int) =~= Seq::empty());
        assert(decoded@ + Seq::<u8>::empty() =~= decoded@);
    }
    text::from_utf8_lossy(decoded.as_slice())
}

/// Length of the word at the start of a line.
pub open spec fn word_length(line: Seq<char>) -> nat
    decreases line.len(),
{
    if line.len() == 0 || text::is_space(line[0]) {
        0
    } else {
        1 + word_length(line.drop_first())
    }
}

/// The words of a line.
pub open spec fn words(line: Seq<char>) -> Seq<Seq<char>>
    decreases line.len(),
{
    if line.len() == 0 {
        Seq::empty()
    } else if text::is_space(line[0]) {
        words(line.drop_first())
    } else {
        proof {
            law_word_ends_at_space(line);
        }
        seq![line.take(word_length(line) as int)] + words(line.skip(word_length(line) as int))
    }
}

/// A word holds no whitespace, and whitespace or the end follows it.
pub proof fn law_word_ends_at_space(line: Seq<char>)
    ensures
        word_length(line) <= line.len(),
        word_length(line) < line.len() ==> text::is_space(line[word_length(line) as int]),
        forall|i: int| 0 <= i < word_length(line) ==> !#[trigger] text::is_space(line[i]),
    decreases line.len(),
{
    if line.len() > 0 && !text::is_space(line[0]) {
        let rest = line.drop_first();
        law_word_ends_at_space(rest);
        assert forall|i: int| 0 <= i < word_length(line) implies !#[trigger] text::is_space(line[i]) by {
            if i > 0 {
                assert(!text::is_space(rest[i - 1]));
            }
        }
    }
}

/// A line holds no line break, and a line break or the end follows it.
pub proof fn law_line_ends_at_break(table: Seq<char>)
    ensures
        line_length(table) <= table.len(),
        line_length(table) < table.len() ==> table[line_length(table) as int] == '\n',
        forall|i: int| 0 <= i < line_length(table) ==> #[trigger] table[i] != '\n',
    decreases table.len(),
{
    if table.len() > 0 && table[0] != '\n' {
        let rest = table.drop_first();
        law_line_ends_at_break(rest);
        assert forall|i: int| 0 <= i < line_length(table) implies #[trigger] table[i] != '\n' by {
            if i > 0 {
                assert(rest[i - 1] == table[i]);
            }
        }
    }
}

/// Length of the first line of a table.
pub open spec fn line_length(table: Seq<char>) -> nat
    decreases table.len(),
{
    if table.len() == 0 || table[0] == '\n' {
        0
    } else {
        1 + line_length(table.drop_first())
    }
}

/// The volume that a line of the mount table describes, if it is of a supported filesystem.
pub open spec fn line_volume(line: Seq<char>) -> Option<VolumeView> {
    let fields = words(line);
    if fields.len() < 3 || !(fields[2] == "ext4"@ || fields[2] == "btrfs"@) {
        None
    } else {
        let device = vstd::utf8::encode_utf8(field_text(fields[0]));
        let mount_point = vstd::utf8::encode_utf8(field_text(fields[1]));
        Some(
            VolumeView {
                device,
                mount_point: Some(mount_point),
                scan_path: if fields[2] == "btrfs"@ {
                    Some(mount_point)
                } else {
                    None
                },
                filesystem: fields[2],
            },
        )
    }
}

/// The two volumes are the same device mounted at the same place.
pub open spec fn same_mount(a: VolumeView, b: VolumeView) -> bool {
    paths::pieces(a.device) == paths::pieces(b.device) && paths::pieces(a.mount_point->0)
        == paths::pieces(b.mount_point->0)
}

/// Adds the volume of a line, unless it is there.
pub open spec fn with_line(volumes: Seq<VolumeView>, line: Seq<char>) -> Seq<VolumeView> {
    match line_volume(line) {
        None => volumes,
        Some(volume) => if exists|i: int|
            0 <= i < volumes.len() && same_mount(#[trigger] volumes[i], volume) {
            volumes
        } else {
            volumes.push(volume)
        },
    }
}

/// What follows the first line of a table.
pub open spec fn behind_line(table: Seq<char>) -> Seq<char> {
    if line_length(table) < table.len() {
        table.skip(line_length(table) as int + 1)
    } else {
        Seq::empty()
    }
}

/// Adds the volumes of a mount table line by line.
pub open spec fn with_table(volumes: Seq<VolumeView>, table: Seq<char>) -> Seq<VolumeView>
    decreases table.len(),
{
    if table.len() == 0 {
        volumes
    } else {
        proof {
            law_line_ends_at_break(table);
        }
        with_table(with_line(volumes, table.take(line_length(table) as int)), behind_line(table))
    }
}

/// Adds the path that the user named in front, unless it is a device in the list.
pub open spec fn with_argument(volumes: Seq<VolumeView>, argument: Option<Seq<u8>>) -> Seq<
    VolumeView,
> {
    match argument {
        None => volumes,
        Some(path) => if exists|i: int|
            0 <= i < volumes.len() && paths::pieces((#[trigger] volumes[i]).device)
                == paths::pieces(path) {
            volumes
        } else {
            seq![
                VolumeView {
                    device: path,
                    mount_point: None,
                    scan_path: None,
                    filesystem: "unknown"@,
                },
            ] + volumes
        },
    }
}

/// What is not mounted comes first, then come the mounted volumes by mount point.
pub open spec fn listed_before(a: VolumeView, b: VolumeView) -> bool {
    match (a.mount_point, b.mount_point) {
        (None, Some(_)) => true,
        (Some(left), Some(right)) => paths::pieces_before(
            paths::pieces(left),
            paths::pieces(right),
        ),
        _ => false,
    }
}

/// `sorted` holds `volumes` at `places`, in the order of the list, what is equal in it in the given
/// order.
pub open spec fn sorted_at(
    volumes: Seq<VolumeView>,
    sorted: Seq<VolumeView>,
    places: Seq<usize>,
) -> bool {
    &&& order::lists_range(places, 0, volumes.len() as int)
    &&& sorted.len() == volumes.len()
    &&& forall|k: int| 0 <= k < volumes.len() ==> #[trigger] sorted[k] == volumes[places[k] as int]
    &&& forall|a: int, b: int|
        0 <= a < b < volumes.len() ==> listed_before(
            #[trigger] sorted[a],
            #[trigger] sorted[b],
        ) || (!listed_before(sorted[b], sorted[a]) && places[a] < places[b])
}

/// The next word of the line `from..end`.
fn next_word(characters: &Vec<char>, from: usize, end: usize) -> (word: Option<(usize, usize)>)
    requires
        from <= end <= characters@.len(),
    ensures
        match word {
            Some((start, stop)) => {
                &&& from <= start < stop <= end
                &&& words(characters@.subrange(from as int, end as int)) == seq![
                    characters@.subrange(start as int, stop as int),
                ] + words(characters@.subrange(stop as int, end as int))
            },
            None => words(characters@.subrange(from as int, end as int)) == Seq::<
                Seq<char>,
            >::empty(),
        },
{
    let ghost line = characters@.subrange(from as int, end as int);
    let mut start: usize = from;
    while start < end && text::is_whitespace(characters[start])
        invariant
            from <= start <= end <= characters@.len(),
            line == characters@.subrange(from as int, end as int),
            words(line) == words(characters@.subrange(start as int, end as int)),
        decreases end - start,
    {
        proof {
            let here = characters@.subrange(start as int, end as int);
            assert(here[0] == characters@[start as int]);
            assert(here.drop_first() =~= characters@.subrange(start + 1, end as int));
        }
        start = start + 1;
    }
    if start == end {
        assert(characters@.subrange(start as int, end as int) =~= Seq::empty());
        return None;
    }
    let ghost here = characters@.subrange(start as int, end as int);
    let mut stop: usize = start;
    assert(here.skip(0) =~= here);
    while stop < end && !text::is_whitespace(characters[stop])
        invariant
            start <= stop <= end <= characters@.len(),
            here == characters@.subrange(start as int, end as int),
            word_length(here) == stop - start + word_length(here.skip(stop - start)),
        decreases end - stop,
    {
        proof {
            let rest = here.skip(stop - start);
            assert(rest[0] == characters@[stop as int]);
            assert(rest.drop_first() =~= here.skip(stop - start + 1));
        }
        stop = stop + 1;
    }
    proof {
        let rest = here.skip(stop - start);
        if stop < end {
            assert(rest[0] == characters@[stop as int]);
        }
        assert(word_length(here) == stop - start);
        assert(here[0] == characters@[start as int]);
        assert(here.take(stop - start) =~= characters@.subrange(start as int, stop as int));
        assert(here.skip(stop - start) =~= characters@.subrange(stop as int, end as int));
        assert(stop > start) by {
            if stop == start {
                assert(word_length(here) == 0);
            }
        }
    }
    Some((start, stop))
}

/// The path that a field of the mount table names.
fn field_path(field: &str) -> (path: Vec<u8>)
    ensures
        path@ == vstd::utf8::encode_utf8(field_text(field@)),
{
    let decoded = decode_mount_field(field);
    text::copy_bytes(decoded.as_str().as_bytes())
}

/// The volume of the line `from..end` of a mount table.
fn parse_line(table: &str, characters: &Vec<char>, from: usize, end: usize) -> (volume: Option<
    Volume,
>)
    requires
        characters@ == table@,
        from <= end <= characters@.len(),
    ensures
        match volume {
            Some(volume) => line_volume(characters@.subrange(from as int, end as int)) == Some(
                volume@,
            ),
            None => line_volume(characters@.subrange(from as int, end as int)) is None,
        },
{
    let ghost line = characters@.subrange(from as int, end as int);
    let (device_start, device_stop) = match next_word(characters, from, end) {
        Some(word) => word,
        None => return None,
    };
    let (mount_start, mount_stop) = match next_word(characters, device_stop, end) {
        Some(word) => word,
        None => return None,
    };
    let (type_start, type_stop) = match next_word(characters, mount_stop, end) {
        Some(word) => word,
        None => return None,
    };
    let device_field = table.substring_char(device_start, device_stop);
    let mount_field = table.substring_char(mount_start, mount_stop);
    let type_field = table.substring_char(type_start, type_stop);
    proof {
        let fields = words(line);
        assert(fields[0] == device_field@);
        assert(fields[1] == mount_field@);
        assert(fields[2] == type_field@);
    }
    let btrfs: bool = text::same_text(type_field, "btrfs");
    if !text::same_text(type_field, "ext4") && !btrfs {
        return None;
    }
    let device = field_path(device_field);
    let mount_point = field_path(mount_field);
    let scan_path: Option<Vec<u8>> = if btrfs {
        Some(text::copy_bytes(mount_point.as_slice()))
    } else {
        None
    };
    Some(
        Volume {
            device,
            mount_point: Some(mount_point),
            scan_path,
            filesystem: String::from_str(type_field),
        },
    )
}

/// Every volume is mounted.
spec fn all_mounted(volumes: Seq<Volume>) -> bool {
    forall|i: int| 0 <= i < volumes.len() ==> (#[trigger] volumes[i]).mount_point is Some
}

/// Whether a volume is in the list.
fn is_known(volumes: &Vec<Volume>, volume: &Volume) -> (known: bool)
    requires
        all_mounted(volumes@),
        volume.mount_point is Some,
    ensures
        known == exists|i: int|
            0 <= i < volumes@.len() && same_mount(
                #[trigger] volume_views(volumes@)[i],
                volume@,
            ),
{
    let mut i: usize = 0;
    while i < volumes.len()
        invariant
            i <= volumes@.len(),
            all_mounted(volumes@),
            volume.mount_point is Some,
            forall|k: int|
                0 <= k < i ==> !same_mount(#[trigger] volume_views(volumes@)[k], volume@),
        decreases volumes@.len() - i,
    {
        let other = &volumes[i];
        assert(volume_views(volumes@)[i as int] == other@);
        match (&other.mount_point, &volume.mount_point) {
            (Some(left), Some(right)) => {
                if paths::same_path(other.device.as_slice(), volume.device.as_slice())
                    && paths::same_path(left.as_slice(), right.as_slice()) {
                    assert(same_mount(volume_views(volumes@)[i as int], volume@));
                    return true;
                }
            },
            _ => {},
        }
        i = i + 1;
    }
    false
}

/// The volumes of a mount table that are of a supported filesystem, each once.
fn parse_mounts(table: &str) -> (volumes: Vec<Volume>)
    ensures
        volume_views(volumes@) == with_table(Seq::empty(), table@),
        all_mounted(volumes@),
{
    let characters = text::characters(table);
    let mut volumes: Vec<Volume> = Vec::new();
    let mut start: usize = 0;
    proof {
        assert(table@.skip(0) =~= table@);
        assert(volume_views(volumes@) =~= Seq::empty());
    }
    while start < characters.len()
        invariant
            start <= characters@.len(),
            characters@ == table@,
            all_mounted(volumes@),
            with_table(volume_views(volumes@), table@.skip(start as int)) == with_table(
                Seq::empty(),
                table@,
            ),
        decreases characters@.len() - start,
    {
        let ghost rest = table@.skip(start as int);
        let mut end: usize = start;
        assert(rest.skip(0) =~= rest);
        while end < characters.len() && characters[end] != '\n'
            invariant
                start <= end <= characters@.len(),
                characters@ == table@,
                rest == table@.skip(start as int),
                line_length(rest) == end - start + line_length(rest.skip(end - start)),
            decreases characters@.len() - end,
        {
            proof {
                let here = rest.skip(end - start);
                assert(here[0] == characters@[end as int]);
                assert(here.drop_first() =~= rest.skip(end - start + 1));
            }
            end = end + 1;
        }
        proof {
            let here = rest.skip(end - start);
            if end < characters@.len() {
                assert(here[0] == characters@[end as int]);
            }
            assert(line_length(rest) == end - start);
            assert(rest.take(end - start) =~= characters@.subrange(start as int, end as int));
        }
        let ghost before = volume_views(volumes@);
        if let Some(volume) = parse_line(table, &characters, start, end) {
            if !is_known(&volumes, &volume) {
                volumes.push(volume);
                assert(volume_views(volumes@) =~= before.push(volume@));
            } else {
                assert(volume_views(volumes@)
                    =~= before);
            }
        }
        proof {
            assert(volume_views(volumes@) == with_line(before, rest.take(end - start)));
        }
        if end < characters.len() {
            start = end + 1;
        } else {
            start = end;
        }
        assert(table@.skip(start as int) =~= behind_line(rest));
    }
    assert(table@.skip(start as int) =~= Seq::empty());
    volumes
}

/// Positions of volumes in the order of the list.
struct ByMountPoint<'a> {
    volumes: &'a Vec<Volume>,
}

impl<'a> Precedence for ByMountPoint<'a> {
    closed spec fn comparable(&self) -> bool {
        true
    }

    closed spec fn size(&self) -> nat {
        self.volumes@.len()
    }

    closed spec fn before(&self, a: int, b: int) -> bool {
        listed_before(self.volumes@[a]@, self.volumes@[b]@) || (!listed_before(
            self.volumes@[b]@,
            self.volumes@[a]@,
        ) && a < b)
    }

    proof fn before_is_total(&self, a: int, b: int) {
        match (self.volumes@[a]@.mount_point, self.volumes@[b]@.mount_point) {
            (Some(left), Some(right)) => {
                paths::lemma_pieces_total(paths::pieces(left), paths::pieces(right));
            },
            _ => {},
        }
    }

    proof fn before_is_transitive(&self, a: int, b: int, c: int) {
        match (
            self.volumes@[a]@.mount_point,
            self.volumes@[b]@.mount_point,
            self.volumes@[c]@.mount_point,
        ) {
            (Some(x), Some(y), Some(z)) => {
                let x = paths::pieces(x);
                let y = paths::pieces(y);
                let z = paths::pieces(z);
                paths::lemma_pieces_total(x, y);
                paths::lemma_pieces_total(y, z);
                paths::lemma_pieces_total(x, z);
                if paths::pieces_before(x, y) && paths::pieces_before(y, z) {
                    paths::lemma_pieces_transitive(x, y, z);
                }
            },
            _ => {},
        }
    }

    fn is_before(&self, a: usize, b: usize) -> (first: bool) {
        match (&self.volumes[a].mount_point, &self.volumes[b].mount_point) {
            (None, Some(_)) => true,
            (Some(_), None) => false,
            (None, None) => a < b,
            (Some(left), Some(right)) => {
                proof {
                    paths::lemma_pieces_total(paths::pieces(left@), paths::pieces(right@));
                }
                if paths::path_before(left.as_slice(), right.as_slice()) {
                    true
                } else if paths::path_before(right.as_slice(), left.as_slice()) {
                    false
                } else {
                    a < b
                }
            },
        }
    }
}

/// A copy of an optional path.
fn copy_path(path: &Option<Vec<u8>>) -> (copy: Option<Vec<u8>>)
    ensures
        path_view(copy) == path_view(*path),
{
    match path {
        Some(path) => Some(text::copy_bytes(path.as_slice())),
        None => None,
    }
}

impl Volume {
    /// A copy of the volume.
    pub fn duplicate(&self) -> (copy: Volume)
        ensures
            copy@ == self@,
    {
        Volume {
            device: text::copy_bytes(self.device.as_slice()),
            mount_point: copy_path(&self.mount_point),
            scan_path: copy_path(&self.scan_path),
            filesystem: self.filesystem.clone(),
        }
    }
}

/// The characters of an optional text.
pub open spec fn text_view(text: Option<&str>) -> Option<Seq<char>> {
    match text {
        Some(text) => Some(text@),
        None => None,
    }
}

/// The bytes of an optional path.
pub open spec fn bytes_view(path: Option<&[u8]>) -> Option<Seq<u8>> {
    match path {
        Some(path) => Some(path@),
        None => None,
    }
}

/// The list before it is put into order.
pub open spec fn gathered(table: Option<Seq<char>>, argument: Option<Seq<u8>>) -> Seq<VolumeView> {
    with_argument(
        match table {
            Some(table) => with_table(Seq::empty(), table),
            None => Seq::empty(),
        },
        argument,
    )
}

/// The volumes to choose from: those of the mount table, if it could be read, and the path that the
/// user named.
pub fn discover(table: Option<&str>, argument: Option<&[u8]>) -> (volumes: Vec<Volume>)
    ensures
        exists|places: Seq<usize>| #[trigger]
            sorted_at(
                gathered(text_view(table), bytes_view(argument)),
                volume_views(volumes@),
                places,
            ),
{
    let mut volumes: Vec<Volume> = match table {
        Some(table) => parse_mounts(table),
        None => Vec::new(),
    };
    let ghost mounted = volume_views(volumes@);
    proof {
        if table is None {
            assert(mounted =~= Seq::empty());
        }
    }
    if let Some(path) = argument {
        let mut known: bool = false;
        let mut i: usize = 0;
        while i < volumes.len()
            invariant
                i <= volumes@.len(),
                mounted == volume_views(volumes@),
                known == exists|k: int|
                    0 <= k < i && paths::pieces((#[trigger] mounted[k]).device) == paths::pieces(
                        path@,
                    ),
            decreases volumes@.len() - i,
        {
            assert(mounted[i as int] == volumes@[i as int]@);
            if paths::same_path(volumes[i].device.as_slice(), path) {
                known = true;
                assert(paths::pieces(mounted[i as int].device) == paths::pieces(path@));
            }
            i = i + 1;
        }
        if !known {
            volumes.insert(
                0,
                Volume {
                    device: text::copy_bytes(path),
                    mount_point: None,
                    scan_path: None,
                    filesystem: String::from_str("unknown"),
                },
            );
            assert(volume_views(volumes@) =~= with_argument(mounted, Some(path@)));
        }
    }
    proof {
        assert(volume_views(volumes@) == gathered(text_view(table), bytes_view(argument)));
    }
    let order = ByMountPoint { volumes: &volumes };
    let places = order::sorted_positions(&order, volumes.len());
    let mut sorted: Vec<Volume> = Vec::with_capacity(places.len());
    let mut k: usize = 0;
    while k < places.len()
        invariant
            k <= places.len(),
            places.len() == volumes.len(),
            sorted.len() == k,
            order::lists_range(places@, 0, volumes@.len() as int),
            forall|m: int|
                0 <= m < k ==> (#[trigger] sorted@[m])@ == volumes@[places@[m] as int]@,
        decreases places.len() - k,
    {
        assert(0 <= places@[k as int] < volumes.len());
        sorted.push(volumes[places[k]].duplicate());
        k = k + 1;
    }
    proof {
        let all = volume_views(volumes@);
        let result = volume_views(sorted@);
        assert forall|m: int| 0 <= m < all.len() implies #[trigger] result[m]
            == all[places@[m] as int] by {
            assert(0 <= places@[m] < volumes.len());
            assert(sorted@[m]@ == volumes@[places@[m] as int]@);
        }
        assert forall|a: int, b: int| 0 <= a < b < all.len() implies listed_before(
            #[trigger] result[a],
            #[trigger] result[b],
        ) || (!listed_before(result[b], result[a]) && places@[a] < places@[b]) by {
            assert(order.before(places@[a] as int, places@[b] as int));
        }
        assert(sorted_at(all, result, places@));
    }
    sorted
}

/// A volume that a table can describe: mounted, of a supported filesystem, and scanned where it is
/// mounted exactly if it is btrfs.
spec fn from_table(volume: VolumeView) -> bool {
    &&& volume.mount_point is Some
    &&& volume.filesystem == "ext4"@ || volume.filesystem == "btrfs"@
    &&& volume.scan_path == if volume.filesystem == "btrfs"@ {
        volume.mount_point
    } else {
        None
    }
}

proof fn lemma_table_volumes(volumes: Seq<VolumeView>, table: Seq<char>)
    requires
        forall|i: int| 0 <= i < volumes.len() ==> #[trigger] from_table(volumes[i]),
    ensures
        forall|i: int|
            0 <= i < with_table(volumes, table).len() ==> #[trigger] from_table(
                with_table(volumes, table)[i],
            ),
    decreases table.len(),
{
    if table.len() > 0 {
        law_line_ends_at_break(table);
        let line = table.take(line_length(table) as int);
        let next = with_line(volumes, line);
        assert forall|i: int| 0 <= i < next.len() implies #[trigger] from_table(next[i]) by {
            if i < volumes.len() {
                assert(from_table(volumes[i]));
            }
        }
        lemma_table_volumes(next, behind_line(table));
        assert(with_table(volumes, table) == with_table(next, behind_line(table)));
    }
}

/// Every listed volume can be scanned: btrfs at its mount point, everything else at its device. What
/// is mounted is ext4 or btrfs; what is not mounted is what the user named, and of no known
/// filesystem.
pub proof fn law_volumes_are_scanned_where_they_can_be(
    table: Option<Seq<char>>,
    argument: Option<Seq<u8>>,
    volumes: Seq<VolumeView>,
    places: Seq<usize>,
    i: int,
)
    requires
        sorted_at(gathered(table, argument), volumes, places),
        0 <= i < volumes.len(),
    ensures
        volumes[i].filesystem == "btrfs"@ ==> volumes[i].mount_point is Some && volumes[i].scan_path
            == volumes[i].mount_point,
        volumes[i].filesystem != "btrfs"@ ==> volumes[i].scan_path is None,
        volumes[i].mount_point is Some ==> volumes[i].filesystem == "ext4"@
            || volumes[i].filesystem == "btrfs"@,
        volumes[i].mount_point is None ==> argument == Some(volumes[i].device)
            && volumes[i].filesystem == "unknown"@,
{
    let mounted = match table {
        Some(table) => with_table(Seq::empty(), table),
        None => Seq::empty(),
    };
    if let Some(table) = table {
        lemma_table_volumes(Seq::empty(), table);
    }
    let all = gathered(table, argument);
    let at = places[i] as int;
    assert(volumes[i] == all[at]);
    reveal_strlit("unknown");
    reveal_strlit("btrfs");
    assert("unknown"@.len() == 7 && "btrfs"@.len() == 5);
    if all.len() == mounted.len() {
        assert(from_table(mounted[at]));
    } else if at > 0 {
        assert(from_table(mounted[at - 1]));
    }
}

/// The two volumes stand for the same device at the same mount point.
pub open spec fn mounted_alike(a: VolumeView, b: VolumeView) -> bool {
    &&& a.mount_point is Some
    &&& b.mount_point is Some
    &&& paths::pieces(a.device) == paths::pieces(b.device)
    &&& paths::pieces(a.mount_point->0) == paths::pieces(b.mount_point->0)
}

/// What is in the list stays in the list.
proof fn lemma_table_keeps(volumes: Seq<VolumeView>, table: Seq<char>)
    ensures
        volumes.is_prefix_of(with_table(volumes, table)),
    decreases table.len(),
{
    if table.len() > 0 {
        law_line_ends_at_break(table);
        let next = with_line(volumes, table.take(line_length(table) as int));
        lemma_table_keeps(next, behind_line(table));
        let whole = with_table(volumes, table);
        assert(volumes =~= whole.subrange(0, volumes.len() as int));
    } else {
        assert(volumes =~= volumes.subrange(0, volumes.len() as int));
    }
}

/// `line` is a line of `table`: it holds no line break, and stands between line breaks or ends.
pub open spec fn is_line(table: Seq<char>, start: int, end: int) -> bool {
    &&& 0 <= start <= end <= table.len()
    &&& start < table.len()
    &&& start == 0 || table[start - 1] == '\n'
    &&& end == table.len() || table[end] == '\n'
    &&& forall|i: int| start <= i < end ==> #[trigger] table[i] != '\n'
}

proof fn lemma_lines_are_listed(
    volumes: Seq<VolumeView>,
    table: Seq<char>,
    start: int,
    end: int,
)
    requires
        is_line(table, start, end),
        line_volume(table.subrange(start, end)) is Some,
        forall|i: int| 0 <= i < volumes.len() ==> (#[trigger] volumes[i]).mount_point is Some,
    ensures
        exists|i: int|
            0 <= i < with_table(volumes, table).len() && mounted_alike(
                #[trigger] with_table(volumes, table)[i],
                line_volume(table.subrange(start, end))->0,
            ),
    decreases table.len(),
{
    law_line_ends_at_break(table);
    let length = line_length(table) as int;
    let line = table.take(length);
    let next = with_line(volumes, line);
    let rest = behind_line(table);
    let volume = line_volume(table.subrange(start, end))->0;
    let whole = with_table(volumes, table);
    assert(whole == with_table(next, rest));
    if start == 0 {
        assert(end == length) by {
            if end < length {
                assert(table[end] != '\n');
            }
            if length < end {
                assert(table[length] != '\n');
            }
        }
        assert(table.subrange(0, end) =~= line);
        lemma_table_keeps(next, rest);
        if exists|i: int| 0 <= i < volumes.len() && same_mount(#[trigger] volumes[i], volume) {
            let i = choose|i: int|
                0 <= i < volumes.len() && same_mount(#[trigger] volumes[i], volume);
            assert(whole[i] == next[i]);
            assert(mounted_alike(whole[i], volume));
        } else {
            let i = volumes.len() as int;
            assert(whole[i] == next[i]);
            assert(mounted_alike(whole[i], volume));
        }
    } else {
        assert(length < start) by {
            if start <= length {
                assert(table[start - 1] != '\n');
            }
        }
        let skip = length + 1;
        assert forall|i: int| start - skip <= i < end - skip implies #[trigger] rest[i] != '\n' by {
            assert(rest[i] == table[i + skip]);
        }
        assert(rest.subrange(start - skip, end - skip) =~= table.subrange(start, end));
        assert(is_line(rest, start - skip, end - skip));
        lemma_lines_are_listed(next, rest, start - skip, end - skip);
    }
}

/// No mounted volume is missed: every line of the table that names a device, a mount point and ext4
/// or btrfs is in the list, as that device at that mount point. A field is taken as it stands, but
/// for its escapes.
pub proof fn law_every_mount_is_listed(
    table: Seq<char>,
    argument: Option<Seq<u8>>,
    volumes: Seq<VolumeView>,
    places: Seq<usize>,
    start: int,
    end: int,
)
    requires
        sorted_at(gathered(Some(table), argument), volumes, places),
        gathered(Some(table), argument).len() <= usize::MAX,
        is_line(table, start, end),
        words(table.subrange(start, end)).len() >= 3,
        words(table.subrange(start, end))[2] == "ext4"@ || words(table.subrange(start, end))[2]
            == "btrfs"@,
    ensures
        exists|i: int|
            {
                let fields = words(table.subrange(start, end));
                &&& 0 <= i < volumes.len()
                &&& (#[trigger] volumes[i]).mount_point is Some
                &&& paths::pieces(volumes[i].device) == paths::pieces(
                    vstd::utf8::encode_utf8(field_text(fields[0])),
                )
                &&& paths::pieces(volumes[i].mount_point->0) == paths::pieces(
                    vstd::utf8::encode_utf8(field_text(fields[1])),
                )
            },
{
    let line = table.subrange(start, end);
    let volume = line_volume(line)->0;
    let mounted = with_table(Seq::empty(), table);
    lemma_lines_are_listed(Seq::empty(), table, start, end);
    let m = choose|m: int|
        0 <= m < mounted.len() && mounted_alike(#[trigger] mounted[m], volume);
    let all = gathered(Some(table), argument);
    let at = m + all.len() - mounted.len();
    assert(all[at] == mounted[m]);
    assert(places.contains(at as usize));
    let i = choose|i: int| 0 <= i < places.len() && places[i] == at as usize;
    assert(volumes[i] == all[at]);
}

/// What the user named is in the list, as a device.
pub proof fn law_the_named_device_is_listed(
    table: Option<Seq<char>>,
    path: Seq<u8>,
    volumes: Seq<VolumeView>,
    places: Seq<usize>,
)
    requires
        sorted_at(gathered(table, Some(path)), volumes, places),
        gathered(table, Some(path)).len() <= usize::MAX,
    ensures
        exists|i: int|
            0 <= i < volumes.len() && paths::pieces((#[trigger] volumes[i]).device)
                == paths::pieces(path),
{
    let mounted = match table {
        Some(table) => with_table(Seq::empty(), table),
        None => Seq::empty(),
    };
    let all = gathered(table, Some(path));
    let at = if all.len() == mounted.len() && exists|i: int|
        0 <= i < mounted.len() && paths::pieces((#[trigger] mounted[i]).device) == paths::pieces(
            path,
        ) {
        choose|i: int|
            0 <= i < mounted.len() && paths::pieces((#[trigger] mounted[i]).device)
                == paths::pieces(path)
    } else {
        0
    };
    assert(paths::pieces(all[at].device) == paths::pieces(path));
    assert(places.contains(at as usize));
    let i = choose|i: int| 0 <= i < places.len() && places[i] == at as usize;
    assert(volumes[i] == all[at]);
}

/// A field without backslashes is taken as it stands.
pub proof fn law_plain_fields_are_kept(field: Seq<u8>)
    requires
        forall|i: int| 0 <= i < field.len() ==> #[trigger] field[i] != 0x5c,
    ensures
        unescaped(field) == field,
    decreases field.len(),
{
    if field.len() > 0 {
        law_plain_fields_are_kept(field.drop_first());
        assert(seq![field[0]] + field.drop_first() =~= field);
    }
}

/// A byte as a backslash and three octal digits.
pub open spec fn octal_escape(byte: u8) -> Seq<u8> {
    seq![
        0x5cu8,
        (0x30 + byte / 64) as u8,
        (0x30 + byte / 8 % 8) as u8,
        (0x30 + byte % 8) as u8,
    ]
}

/// A field with some of its bytes as escapes.
pub open spec fn escaped(field: Seq<u8>, special: spec_fn(u8) -> bool) -> Seq<u8>
    decreases field.len(),
{
    if field.len() == 0 {
        Seq::empty()
    } else {
        (if special(field[0]) {
            octal_escape(field[0])
        } else {
            seq![field[0]]
        }) + escaped(field.drop_first(), special)
    }
}

/// Escapes are undone: whichever bytes of a field are written as escapes, backslashes among them, it
/// decodes to the bytes it was made of.
pub proof fn law_escapes_are_undone(field: Seq<u8>, special: spec_fn(u8) -> bool)
    requires
        special(0x5c),
    ensures
        unescaped(escaped(field, special)) == field,
    decreases field.len(),
{
    if field.len() > 0 {
        let rest = escaped(field.drop_first(), special);
        let all = escaped(field, special);
        law_escapes_are_undone(field.drop_first(), special);
        if special(field[0]) {
            let byte = field[0];
            assert(all[0] == 0x5c && all[1] == 0x30 + byte / 64 && all[2] == 0x30 + byte / 8 % 8
                && all[3] == 0x30 + byte % 8);
            assert(all.skip(4) =~= rest);
            assert(byte / 64 * 64 + byte / 8 % 8 * 8 + byte % 8 == byte);
            assert(escaped_byte(all) == byte);
            assert(seq![byte] + field.drop_first() =~= field);
        } else {
            assert(all[0] == field[0]);
            assert(all.drop_first() =~= rest);
            assert(seq![field[0]] + field.drop_first() =~= field);
        }
    } else {
        assert(unescaped(escaped(field, special)) =~= field);
    }
}

/// Volumes that are not mounted come first, the others follow by mount point.
pub proof fn law_volumes_stand_by_mount_point(
    volumes: Seq<VolumeView>,
    sorted: Seq<VolumeView>,
    places: Seq<usize>,
    a: int,
    b: int,
)
    requires
        sorted_at(volumes, sorted, places),
        0 <= a < b < sorted.len(),
    ensures
        sorted[a].mount_point is Some ==> sorted[b].mount_point is Some,
        sorted[a].mount_point is Some ==> !paths::pieces_before(
            paths::pieces(sorted[b].mount_point->0),
            paths::pieces(sorted[a].mount_point->0),
        ),
{
    if sorted[a].mount_point is Some && sorted[b].mount_point is Some {
        paths::lemma_pieces_total(
            paths::pieces(sorted[a].mount_point->0),
            paths::pieces(sorted[b].mount_point->0),
        );
    }
}

/// No mount is listed twice.
pub proof fn law_mounts_are_listed_once(
    volumes: Seq<VolumeView>,
    table: Seq<char>,
    a: int,
    b: int,
)
    requires
        forall|i: int, j: int|
            0 <= i < j < volumes.len() ==> !same_mount(
                #[trigger] volumes[i],
                #[trigger] volumes[j],
            ),
        0 <= a < b < with_table(volumes, table).len(),
    ensures
        paths::pieces(with_table(volumes, table)[a].device) != paths::pieces(
            with_table(volumes, table)[b].device,
        ) || paths::pieces(with_table(volumes, table)[a].mount_point->0) != paths::pieces(
            with_table(volumes, table)[b].mount_point->0,
        ),
    decreases table.len(),
{
    if table.len() > 0 {
        law_line_ends_at_break(table);
        let next = with_line(volumes, table.take(line_length(table) as int));
        assert forall|i: int, j: int| 0 <= i < j < next.len() implies !same_mount(
            #[trigger] next[i],
            #[trigger] next[j],
        ) by {
            if j < volumes.len() {
                assert(!same_mount(volumes[i], volumes[j]));
            } else {
                assert(!same_mount(volumes[i], next[j]));
            }
        }
        law_mounts_are_listed_once(next, behind_line(table), a, b);
    } else {
        assert(!same_mount(volumes[a], volumes[b]));
    }
}

/// The words one behind the other.
pub open spec fn joined_words(words: Seq<Seq<char>>) -> Seq<char>
    decreases words.len(),
{
    if words.len() == 0 {
        Seq::empty()
    } else {
        words[0] + joined_words(words.drop_first())
    }
}

/// Characters that are no whitespace.
pub open spec fn visible() -> spec_fn(char) -> bool {
    |character: char| !text::is_space(character)
}

proof fn lemma_all_visible(word: Seq<char>)
    requires
        forall|i: int| 0 <= i < word.len() ==> !text::is_space(#[trigger] word[i]),
    ensures
        word.filter(visible()) == word,
    decreases word.len(),
{
    reveal(Seq::filter);
    if word.len() > 0 {
        lemma_all_visible(word.drop_last());
        assert(word.drop_last().push(word.last()) =~= word);
    }
}

/// The words of a line are everything in it but whitespace, in its order; none is empty, and none
/// holds whitespace.
pub proof fn law_words_hold_the_line(line: Seq<char>)
    ensures
        joined_words(words(line)) == line.filter(visible()),
        forall|k: int|
            0 <= k < words(line).len() ==> (#[trigger] words(line)[k]).len() > 0 && forall|i: int|
                0 <= i < words(line)[k].len() ==> !text::is_space(#[trigger] words(line)[k][i]),
    decreases line.len(),
{
    law_word_ends_at_space(line);
    if line.len() == 0 {
        reveal(Seq::filter);
        assert(line.filter(visible()) =~= Seq::empty());
    } else if text::is_space(line[0]) {
        let rest = line.drop_first();
        law_words_hold_the_line(rest);
        assert(line =~= seq![line[0]] + rest);
        Seq::filter_distributes_over_add(seq![line[0]], rest, visible());
        assert(seq![line[0]].filter(visible()) =~= Seq::empty()) by {
            reveal_with_fuel(Seq::filter, 2);
            assert(seq![line[0]].drop_last() =~= Seq::empty());
        }
        assert(line.filter(visible()) =~= rest.filter(visible()));
    } else {
        let length = word_length(line) as int;
        let word = line.take(length);
        let rest = line.skip(length);
        law_words_hold_the_line(rest);
        assert(line =~= word + rest);
        Seq::filter_distributes_over_add(word, rest, visible());
        assert forall|i: int| 0 <= i < word.len() implies !text::is_space(#[trigger] word[i]) by {
            assert(!text::is_space(line[i]));
        }
        lemma_all_visible(word);
        let all = words(line);
        assert(all == seq![word] + words(rest));
        assert(all.drop_first() =~= words(rest));
        assert forall|k: int| 0 <= k < all.len() implies (#[trigger] all[k]).len() > 0
            && forall|i: int| 0 <= i < all[k].len() ==> !text::is_space(#[trigger] all[k][i]) by {
            if k > 0 {
                assert(all[k] == words(rest)[k - 1]);
            }
        }
    }
}

} // verus!
