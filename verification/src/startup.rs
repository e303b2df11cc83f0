//! Finding the display to start on.

use vstd::prelude::*;

use crate::paths;
use crate::text;

verus! {

/// The character is a decimal digit.
pub open spec fn is_digit(character: char) -> bool {
    0x30 <= character as u32 <= 0x39
}

/// The number that decimal digits stand for.
pub open spec fn digits_value(digits: Seq<char>) -> int
    decreases digits.len(),
{
    if digits.len() == 0 {
        0
    } else {
        10 * digits_value(digits.drop_last()) + (digits.last() as u32 - 0x30)
    }
}

/// The digits of a number with an optional sign.
pub open spec fn unsigned_part(value: Seq<char>) -> Seq<char> {
    if value.len() > 0 && (value[0] == '+' || value[0] == '-') {
        value.drop_first()
    } else {
        value
    }
}

/// The text is a number of 32 bits with an optional sign.
pub open spec fn is_number(value: Seq<char>) -> bool {
    let digits = unsigned_part(value);
    &&& digits.len() > 0
    &&& forall|i: int| 0 <= i < digits.len() ==> #[trigger] is_digit(digits[i])
    &&& if value[0] == '-' {
        digits_value(digits) <= 0x8000_0000
    } else {
        digits_value(digits) <= i32::MAX
    }
}

proof fn lemma_digits_grow(digits: Seq<char>, some: int)
    requires
        0 <= some <= digits.len(),
        forall|i: int| 0 <= i < digits.len() ==> #[trigger] is_digit(digits[i]),
    ensures
        0 <= digits_value(digits.take(some)) <= digits_value(digits),
    decreases digits.len(),
{
    if some == digits.len() {
        assert(digits.take(some) =~= digits);
        if digits.len() > 0 {
            assert(is_digit(digits[digits.len() - 1]));
            lemma_digits_grow(digits.drop_last(), digits.len() - 1);
            assert(digits.drop_last().take(digits.len() - 1) =~= digits.drop_last());
        }
    } else {
        lemma_digits_grow(digits.drop_last(), some);
        assert(digits.drop_last().take(some) =~= digits.take(some));
        assert(is_digit(digits[digits.len() - 1]));
    }
}

/// Whether a text is a number of 32 bits.
fn parses_as_number(value: &str) -> (parses: bool)
    ensures
        parses == is_number(value@),
{
    let characters = text::characters(value);
    if characters.len() == 0 {
        return false;
    }
    let negative: bool = characters[0] == '-';
    let start: usize = if negative || characters[0] == '+' {
        1
    } else {
        0
    };
    let ghost digits = unsigned_part(value@);
    assert(digits =~= value@.skip(start as int));
    if start == characters.len() {
        return false;
    }
    let limit: u64 = if negative {
        0x8000_0000
    } else {
        0x7fff_ffff
    };
    let mut number: u64 = 0;
    let mut i: usize = start;
    assert(digits.take(0) =~= Seq::empty());
    while i < characters.len()
        invariant
            start <= i <= characters@.len(),
            characters@ == value@,
            digits == value@.skip(start as int),
            digits == unsigned_part(value@),
            digits.len() > 0,
            negative == (value@[0] == '-'),
            limit == if negative {
                0x8000_0000u64
            } else {
                0x7fff_ffffu64
            },
            number == digits_value(digits.take(i - start)),
            number <= limit,
            forall|k: int| 0 <= k < i - start ==> #[trigger] is_digit(digits[k]),
        decreases characters@.len() - i,
    {
        let code: u32 = characters[i] as u32;
        assert(digits[i - start] == characters@[i as int]);
        if code < 0x30 || code > 0x39 {
            assert(!is_digit(digits[i - start]));
            return false;
        }
        number = 10 * number + (code - 0x30) as u64;
        proof {
            let longer = digits.take(i + 1 - start);
            assert(longer.drop_last() =~= digits.take(i - start));
            assert(longer.last() == characters@[i as int]);
            assert(longer.len() > 0);
            assert(number == digits_value(longer));
        }
        if number > limit {
            proof {
                if is_number(value@) {
                    lemma_digits_grow(digits, i + 1 - start);
                }
            }
            return false;
        }
        i = i + 1;
    }
    assert(digits.take(i - start) =~= digits);
    true
}

/// Whether the socket that a parent process handed over is to be ignored: it is where its number
/// cannot be read. `value` is absent where it is not text.
pub fn is_stale_socket(value: Option<&str>) -> (stale: bool)
    ensures
        stale == !(value matches Some(value) && is_number(value@)),
{
    match value {
        Some(value) => !parses_as_number(value),
        None => true,
    }
}

/// What the environment says of displays.
#[derive(Debug)]
pub struct DisplayEnvironment {
    /// Name or path of the Wayland socket, if it is set and not empty.
    pub wayland: Option<String>,
    /// Whether an X11 display is set.
    pub x11: bool,
    /// The type of the session, if it is set and not empty.
    pub session_type: Option<String>,
    /// The backend that the user asked for.
    pub backend: Option<String>,
    /// Where sockets of the user are.
    pub runtime_directory: Option<Vec<u8>>,
}

impl DisplayEnvironment {
    /// The user asked for X11.
    pub open spec fn wants_x11(self) -> bool {
        self.backend matches Some(backend) && text::same_ignoring_case(backend@, "x11"@)
    }

    /// The session is a Wayland session.
    pub open spec fn in_wayland_session(self) -> bool {
        self.session_type matches Some(session) && text::same_ignoring_case(
            session@,
            "wayland"@,
        )
    }
}

/// What to do about the display.
#[derive(Debug)]
pub enum DisplayStep {
    /// Start with the environment as it is.
    Start,
    /// Start on X11, without the Wayland display.
    StartOnX11,
    /// Try whether the Wayland socket at this path can be reached.
    TrySocket(Vec<u8>),
    /// Do not start.
    Fail(String),
}

/// Path of a Wayland socket.
pub open spec fn socket_path(display: Seq<u8>, runtime_directory: Option<Seq<u8>>) -> Seq<u8> {
    if paths::absolute(display) {
        display
    } else {
        paths::joined(
            match runtime_directory {
                Some(directory) => directory,
                None => Seq::empty(),
            },
            display,
        )
    }
}

/// Path of a Wayland socket. A name is looked up in the runtime directory.
pub fn wayland_socket_path(display: &[u8], runtime_directory: Option<&[u8]>) -> (path: Vec<u8>)
    ensures
        path@ == socket_path(
            display@,
            match runtime_directory {
                Some(directory) => Some(directory@),
                None => None,
            },
        ),
{
    if paths::is_absolute(display) {
        return text::copy_bytes(display);
    }
    match runtime_directory {
        Some(directory) => paths::join(directory, display),
        None => {
            let empty: Vec<u8> = Vec::new();
            assert(empty@ =~= Seq::empty());
            paths::join(empty.as_slice(), display)
        },
    }
}

/// The first step of finding a display.
pub fn choose_display(environment: &DisplayEnvironment) -> (step: DisplayStep)
    ensures
        match step {
            DisplayStep::StartOnX11 => environment.x11 && (environment.wants_x11() || (
            environment.wayland is Some && !environment.in_wayland_session())),
            DisplayStep::Start => environment.x11 && !environment.wants_x11()
                && environment.wayland is None,
            DisplayStep::TrySocket(path) => {
                &&& !environment.wants_x11()
                &&& environment.wayland is Some
                &&& !environment.x11 || environment.in_wayland_session()
                &&& path@ == socket_path(
                    vstd::utf8::encode_utf8(environment.wayland->0@),
                    match environment.runtime_directory {
                        Some(directory) => Some(directory@),
                        None => None,
                    },
                )
            },
            DisplayStep::Fail(message) => !environment.x11 && (environment.wants_x11()
                || environment.wayland is None) && message@ == if environment.wants_x11() {
                "AKIMI_DISPLAY_BACKEND=x11 was requested, but DISPLAY is not set"@
            } else {
                "no graphical display was found; start a Wayland/X11 session or set WAYLAND_DISPLAY/DISPLAY"@
            },
        },
{
    let wants_x11: bool = match &environment.backend {
        Some(backend) => text::is_same_ignoring_case(backend.as_str(), "x11"),
        None => false,
    };
    if wants_x11 {
        if environment.x11 {
            return DisplayStep::StartOnX11;
        }
        return DisplayStep::Fail(
            String::from_str("AKIMI_DISPLAY_BACKEND=x11 was requested, but DISPLAY is not set"),
        );
    }
    if let Some(display) = &environment.wayland {
        let wayland_session: bool = match &environment.session_type {
            Some(session) => text::is_same_ignoring_case(session.as_str(), "wayland"),
            None => false,
        };
        if environment.x11 && !wayland_session {
            return DisplayStep::StartOnX11;
        }
        let path = match &environment.runtime_directory {
            Some(directory) => wayland_socket_path(
                display.as_str().as_bytes(),
                Some(directory.as_slice()),
            ),
            None => wayland_socket_path(display.as_str().as_bytes(), None),
        };
        return DisplayStep::TrySocket(path);
    }
    if environment.x11 {
        return DisplayStep::Start;
    }
    DisplayStep::Fail(
        String::from_str(
            "no graphical display was found; start a Wayland/X11 session or set WAYLAND_DISPLAY/DISPLAY",
        ),
    )
}

/// The step that follows once the Wayland socket at `path` has been tried.
pub fn after_socket(path: &[u8], reachable: bool, x11: bool) -> (step: DisplayStep)
    ensures
        match step {
            DisplayStep::Start => reachable,
            DisplayStep::StartOnX11 => !reachable && x11,
            DisplayStep::TrySocket(_) => false,
            DisplayStep::Fail(message) => !reachable && !x11 && message@
                == "Wayland is selected by WAYLAND_DISPLAY, but '"@ + text::lossy_text(path@)
                + "' is unavailable and DISPLAY is not set"@,
        },
{
    if reachable {
        return DisplayStep::Start;
    }
    if x11 {
        return DisplayStep::StartOnX11;
    }
    let mut message = String::from_str("Wayland is selected by WAYLAND_DISPLAY, but '");
    message.append(text::from_utf8_lossy(path).as_str());
    message.append("' is unavailable and DISPLAY is not set");
    DisplayStep::Fail(message)
}

/// Every number of 32 bits that is written in decimal is read as one, with and without its sign, and
/// nothing that holds anything but digits behind the sign is.
pub proof fn law_numbers_are_read(value: nat, other: Seq<char>, i: int)
    ensures
        value <= i32::MAX ==> is_number(text::decimal(value)),
        value <= 0x8000_0000 ==> is_number(seq!['-'] + text::decimal(value)),
        value > i32::MAX ==> !is_number(text::decimal(value)),
        1 <= i < other.len() && !(0x30 <= other[i] as u32 <= 0x39) ==> !is_number(other),
        other.len() == 0 ==> !is_number(other),
{
    text::law_decimals_read_back(value);
    let digits = text::decimal(value);
    lemma_same_value(digits);
    assert('0' <= digits[0] <= '9');
    assert(unsigned_part(digits) == digits);
    let negative = seq!['-'] + digits;
    assert(negative.drop_first() =~= digits);
    assert forall|k: int| 0 <= k < digits.len() implies #[trigger] is_digit(digits[k]) by {
        assert('0' <= digits[k] <= '9');
    }
    if 1 <= i < other.len() && !(0x30 <= other[i] as u32 <= 0x39) {
        let rest = unsigned_part(other);
        if rest == other {
            assert(!is_digit(rest[i]));
        } else {
            assert(rest[i - 1] == other[i]);
            assert(!is_digit(rest[i - 1]));
        }
    }
}

proof fn lemma_same_value(digits: Seq<char>)
    ensures
        digits_value(digits) == text::decimal_value(digits),
    decreases digits.len(),
{
    if digits.len() > 0 {
        lemma_same_value(digits.drop_last());
    }
}

/// A socket that is named by an absolute path is there, and any other name is looked up below the
/// runtime directory.
pub proof fn law_sockets_are_looked_up(display: Seq<u8>, directory: Seq<u8>)
    ensures
        display.len() > 0 && display[0] == 0x2f ==> socket_path(display, Some(directory))
            == display,
        !paths::absolute(display) && directory.len() > 0 ==> directory.is_prefix_of(
            socket_path(display, Some(directory)),
        ) && display.is_suffix_of(socket_path(display, Some(directory))),
        !paths::absolute(display) ==> socket_path(display, None) == display,
{
    let path = socket_path(display, Some(directory));
    if !paths::absolute(display) && directory.len() > 0 {
        assert(directory =~= path.subrange(0, directory.len() as int));
        assert(display =~= path.subrange(path.len() - display.len(), path.len() as int));
    }
}

} // verus!
