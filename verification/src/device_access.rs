//! What to do when a volume cannot be read for want of permission, and what to say of it.

use vstd::prelude::*;

use crate::text;

verus! {

/// What follows a failed attempt to open a volume.
#[derive(Clone, Copy, Debug, Eq, PartialEq, Structural)]
pub enum OpenFallback {
    /// Ask for a descriptor that may be read.
    RequestDescriptor,
    /// Report the failure.
    Fail,
}

/// Only a lack of permission to a block device can be helped.
pub fn open_fallback(permission_denied: bool, is_block_device: bool) -> (fallback: OpenFallback)
    ensures
        fallback == if permission_denied && is_block_device {
            OpenFallback::RequestDescriptor
        } else {
            OpenFallback::Fail
        },
{
    if permission_denied && is_block_device {
        OpenFallback::RequestDescriptor
    } else {
        OpenFallback::Fail
    }
}

/// Whether a failed scan is to be tried again through the helper: a btrfs scan that lacked
/// permission is.
pub fn scan_with_helper(is_btrfs: bool, permission_denied: bool) -> (retry: bool)
    ensures
        retry == (is_btrfs && permission_denied),
{
    is_btrfs && permission_denied
}

/// Why the helper failed: what it wrote, or else how it ended.
pub open spec fn helper_text(written: Seq<u8>, status: Seq<char>) -> Seq<char> {
    let message = text::trimmed(text::lossy_text(written));
    if message.len() == 0 {
        "btrfs authorization failed ("@ + status + ")"@
    } else {
        message
    }
}

/// Describes a failure of the helper.
pub fn helper_failure(written: &[u8], status: &str) -> (message: String)
    ensures
        message@ == helper_text(written@, status@),
{
    let message = text::trim(text::from_utf8_lossy(written).as_str());
    if message.as_str().is_empty() {
        let mut message = String::from_str("btrfs authorization failed (");
        message.append(status);
        message.append(")");
        message
    } else {
        message
    }
}

/// An error of the disk service in words, `name` being the name of a method error.
pub open spec fn udisks_text(
    action: Seq<char>,
    name: Option<Seq<char>>,
    error: Seq<char>,
) -> Seq<char> {
    if name matches Some(name) && (text::ends_with(name, ".ServiceUnknown"@) || text::ends_with(
        name,
        ".NameHasNoOwner"@,
    )) {
        "UDisks2 is not running. Enable the UDisks2 service, then try again."@
    } else {
        action + " through UDisks2: "@ + error
    }
}

/// Describes an error of the disk service, `name` being the name of a method error.
pub fn describe_udisks_error(action: &str, name: Option<&str>, error: &str) -> (message: String)
    ensures
        message@ == udisks_text(
            action@,
            match name {
                Some(name) => Some(name@),
                None => None,
            },
            error@,
        ),
{
    if let Some(name) = name {
        if text::has_suffix(name, ".ServiceUnknown") || text::has_suffix(name, ".NameHasNoOwner") {
            return String::from_str(
                "UDisks2 is not running. Enable the UDisks2 service, then try again.",
            );
        }
    }
    let mut message = String::from_str(action);
    message.append(" through UDisks2: ");
    message.append(error);
    message
}

/// A refused or failed request for read access in words.
pub open spec fn authorization_text(name: Option<Seq<char>>, error: Seq<char>) -> Seq<char> {
    if name matches Some(name) && text::ends_with(name, ".NotAuthorizedDismissed"@) {
        "Read access was cancelled. The volume was not scanned."@
    } else if name matches Some(name) && (text::contains(name, ".NotAuthorized"@)
        || text::ends_with(name, ".AccessDenied"@)) {
        "Read access was not authorized. Polkit needs a graphical authentication agent, which niri does not start by itself. Start polkit-kde-authentication-agent-1, polkit-gnome-authentication-agent-1, lxqt-policykit-agent, or another polkit agent, then retry."@
    } else {
        udisks_text("Could not obtain read-only access"@, name, error)
    }
}

/// Describes a refused or failed request for read access.
pub fn describe_authorization_error(name: Option<&str>, error: &str) -> (message: String)
    ensures
        message@ == authorization_text(
            match name {
                Some(name) => Some(name@),
                None => None,
            },
            error@,
        ),
{
    if let Some(name) = name {
        if text::has_suffix(name, ".NotAuthorizedDismissed") {
            return String::from_str("Read access was cancelled. The volume was not scanned.");
        }
        if text::has_part(name, ".NotAuthorized") || text::has_suffix(name, ".AccessDenied") {
            return String::from_str(
                "Read access was not authorized. Polkit needs a graphical authentication agent, which niri does not start by itself. Start polkit-kde-authentication-agent-1, polkit-gnome-authentication-agent-1, lxqt-policykit-agent, or another polkit agent, then retry.",
            );
        }
    }
    describe_udisks_error("Could not obtain read-only access", name, error)
}

/// Where the disk service does not run, the message says so, whoever reports it; any other failure
/// is passed on with what was attempted.
pub proof fn law_missing_services_are_told(
    action: Seq<char>,
    front: Seq<char>,
    error: Seq<char>,
)
    ensures
        udisks_text(action, Some(front + ".ServiceUnknown"@), error)
            == "UDisks2 is not running. Enable the UDisks2 service, then try again."@,
        udisks_text(action, Some(front + ".NameHasNoOwner"@), error)
            == "UDisks2 is not running. Enable the UDisks2 service, then try again."@,
        udisks_text(action, None, error) == action + " through UDisks2: "@ + error,
{
    let unknown = ".ServiceUnknown"@;
    let ownerless = ".NameHasNoOwner"@;
    assert((front + unknown).skip((front + unknown).len() - unknown.len()) =~= unknown);
    assert((front + ownerless).skip((front + ownerless).len() - ownerless.len()) =~= ownerless);
}

/// A request that the user dismissed is told as cancelled, one that was refused as not authorized;
/// any other failure as one of the disk service.
pub proof fn law_refusals_are_told(name: Seq<char>, error: Seq<char>)
    ensures
        text::ends_with(name, ".NotAuthorizedDismissed"@) ==> authorization_text(Some(name), error)
            == "Read access was cancelled. The volume was not scanned."@,
        text::ends_with(name, ".AccessDenied"@) && !text::ends_with(
            name,
            ".NotAuthorizedDismissed"@,
        ) ==> text::contains(authorization_text(Some(name), error), "not authorized"@)
            || authorization_text(Some(name), error)
            == "Read access was not authorized. Polkit needs a graphical authentication agent, which niri does not start by itself. Start polkit-kde-authentication-agent-1, polkit-gnome-authentication-agent-1, lxqt-policykit-agent, or another polkit agent, then retry."@,
        !text::ends_with(name, ".NotAuthorizedDismissed"@) && !text::contains(
            name,
            ".NotAuthorized"@,
        ) && !text::ends_with(name, ".AccessDenied"@) ==> authorization_text(Some(name), error)
            == udisks_text("Could not obtain read-only access"@, Some(name), error),
        authorization_text(None, error) == "Could not obtain read-only access"@
            + " through UDisks2: "@ + error,
{
}

/// What the helper wrote is passed on without the space around it; a helper that wrote nothing is
/// told by how it ended.
pub proof fn law_helpers_are_quoted(written: Seq<u8>, status: Seq<char>)
    ensures
        text::trimmed(text::lossy_text(written)).len() > 0 ==> helper_text(written, status)
            == text::trimmed(text::lossy_text(written)),
        text::trimmed(text::lossy_text(written)).len() == 0 ==> text::contains(
            helper_text(written, status),
            status,
        ),
{
    let front = "btrfs authorization failed ("@;
    text::lemma_contains_end(front, status);
    text::lemma_contains_more(Seq::empty(), front + status, ")"@, status);
}

} // verus!
