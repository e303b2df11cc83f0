use akimi::device_access::{
    describe_authorization_error, describe_udisks_error, helper_failure, open_fallback,
    scan_with_helper, OpenFallback,
};
use akimi::failure::IoError;
use akimi::file_ops::{
    io_error, DeleteAction, DeleteMode, DeleteTarget, ItemStatus, MountStatus,
};
use akimi::paths::{components, is_absolute, join, path_before, same_path, Component};
use akimi::startup::{
    after_socket, choose_display, is_stale_socket, wayland_socket_path, DisplayEnvironment,
    DisplayStep,
};
use akimi::volumes::{decode_mount_field, discover};
use akimi::NodeKind;

#[test]
fn decodes_proc_mount_escapes() {
    assert_eq!(decode_mount_field("/media/My\\040Drive"), "/media/My Drive");
}

#[test]
fn decodes_only_complete_escapes() {
    assert_eq!(decode_mount_field("a\\04"), "a\\04");
    assert_eq!(decode_mount_field("a\\089"), "a\\089");
    assert_eq!(decode_mount_field("\\134\\011"), "\\\t");
    assert_eq!(decode_mount_field("caf\\303\\251"), "café");
    assert_eq!(decode_mount_field("\\377"), "\u{fffd}");
    assert_eq!(decode_mount_field(""), "");
}

#[test]
fn volumes_come_from_the_mount_table() {
    let table = "/dev/sdb1 /home ext4 rw 0 0\n\
                 proc /proc proc rw 0 0\n\
                 /dev/sda2 / btrfs rw 0 0\n\
                 /dev/sda2 / btrfs rw 0 0\n\
                 broken line\n\
                 /dev/sdc1 /media/My\\040Drive ext4 rw 0 0";
    let volumes = discover(Some(table), None);
    let described = volumes
        .iter()
        .map(|volume| {
            (
                String::from_utf8(volume.device.clone()).unwrap(),
                String::from_utf8(volume.mount_point.clone().unwrap()).unwrap(),
                volume.scan_path.is_some(),
                volume.filesystem.clone(),
            )
        })
        .collect::<Vec<_>>();
    let text = |value: &str| value.to_string();
    assert_eq!(
        described,
        vec![
            (text("/dev/sda2"), text("/"), true, text("btrfs")),
            (text("/dev/sdb1"), text("/home"), false, text("ext4")),
            (
                text("/dev/sdc1"),
                text("/media/My Drive"),
                false,
                text("ext4")
            ),
        ]
    );
}

#[test]
fn the_argument_comes_first_unless_it_is_listed() {
    let table = "/dev/sdb1 /home ext4 rw 0 0";
    let volumes = discover(Some(table), Some(b"image.bin"));
    assert_eq!(volumes.len(), 2);
    assert_eq!(volumes[0].device, b"image.bin");
    assert_eq!(volumes[0].filesystem, "unknown");
    assert_eq!(volumes[0].mount_point, None);
    let volumes = discover(Some(table), Some(b"/dev//sdb1"));
    assert_eq!(volumes.len(), 1);
    assert!(discover(None, None).is_empty());
}

#[test]
fn absolute_wayland_socket_is_preserved() {
    assert_eq!(
        wayland_socket_path(b"/tmp/wayland-9", Some(b"/run/user/1000")),
        b"/tmp/wayland-9"
    );
}

#[test]
fn relative_wayland_sockets_lie_in_the_runtime_directory() {
    assert_eq!(
        wayland_socket_path(b"wayland-0", Some(b"/run/user/1000")),
        b"/run/user/1000/wayland-0"
    );
    assert_eq!(wayland_socket_path(b"wayland-0", None), b"wayland-0");
    assert!(is_stale_socket(Some("")));
    assert!(is_stale_socket(Some("wayland-0")));
    assert!(is_stale_socket(Some("2147483648")));
    assert!(is_stale_socket(None));
    assert!(!is_stale_socket(Some("+7")));
    assert!(!is_stale_socket(Some("-2147483648")));
}

fn environment() -> DisplayEnvironment {
    DisplayEnvironment {
        wayland: None,
        x11: false,
        session_type: None,
        backend: None,
        runtime_directory: Some(b"/run/user/1000".to_vec()),
    }
}

#[test]
fn displays_are_chosen_from_the_environment() {
    let mut settings = environment();
    assert!(matches!(choose_display(&settings), DisplayStep::Fail(_)));
    settings.x11 = true;
    assert!(matches!(choose_display(&settings), DisplayStep::Start));
    settings.wayland = Some("wayland-0".to_string());
    assert!(matches!(choose_display(&settings), DisplayStep::StartOnX11));
    settings.session_type = Some("Wayland".to_string());
    assert!(matches!(
        choose_display(&settings),
        DisplayStep::TrySocket(path) if path == b"/run/user/1000/wayland-0"
    ));
    settings.backend = Some("X11".to_string());
    assert!(matches!(choose_display(&settings), DisplayStep::StartOnX11));
    settings.x11 = false;
    assert!(matches!(
        choose_display(&settings),
        DisplayStep::Fail(message)
            if message == "AKIMI_DISPLAY_BACKEND=x11 was requested, but DISPLAY is not set"
    ));
    assert!(matches!(
        after_socket(b"/s", true, false),
        DisplayStep::Start
    ));
    assert!(matches!(
        after_socket(b"/s", false, true),
        DisplayStep::StartOnX11
    ));
    assert!(matches!(
        after_socket(b"/s", false, false),
        DisplayStep::Fail(message) if message
            == "Wayland is selected by WAYLAND_DISPLAY, but '/s' is unavailable and DISPLAY is not set"
    ));
}

fn target(path: &[u8], kind: NodeKind) -> DeleteTarget {
    DeleteTarget::new(b"/mnt/data".to_vec(), path.to_vec(), 7, 42, kind).unwrap()
}

#[test]
fn rejects_paths_that_can_escape_the_mount() {
    let result = DeleteTarget::new(
        b"/tmp/akimi".to_vec(),
        b"../outside".to_vec(),
        7,
        1,
        NodeKind::File,
    );

    assert!(result.is_err());
    for path in [&b""[..], b"/etc", b"a/../b", b"./a", b"a/.."] {
        let error =
            DeleteTarget::new(b"/mnt".to_vec(), path.to_vec(), 7, 1, NodeKind::File).unwrap_err();
        assert_eq!(error.message, "the selected path is not safe to delete");
    }
    let error = DeleteTarget::new(b"mnt".to_vec(), b"a".to_vec(), 7, 1, NodeKind::File).unwrap_err();
    assert_eq!(error.message, "the mount point is not absolute");
}

#[test]
fn rejects_a_stale_inode() {
    let target = target(b"example.bin", NodeKind::File);
    assert_eq!(target.mount_point(), b"/mnt/data");
    let mount = MountStatus {
        is_dir: true,
        device: 7,
    };
    assert_eq!(
        target.check_mount(Ok(mount)).unwrap(),
        b"/mnt/data/example.bin"
    );
    let status = ItemStatus {
        device: 7,
        inode: 42,
        kind: NodeKind::File,
    };
    assert!(target.check_item(Ok(status)).is_ok());
    for stale in [
        ItemStatus {
            inode: 43,
            ..status
        },
        ItemStatus {
            device: 8,
            ..status
        },
        ItemStatus {
            kind: NodeKind::Symlink,
            ..status
        },
    ] {
        let error = target.check_item(Ok(stale)).unwrap_err();
        assert!(error.message.contains("changed after the scan"));
    }
    for changed in [
        MountStatus {
            is_dir: false,
            device: 7,
        },
        MountStatus {
            is_dir: true,
            device: 8,
        },
    ] {
        let error = target.check_mount(Ok(changed)).unwrap_err();
        assert_eq!(
            error.message,
            "the volume changed after the scan; scan it again before deleting"
        );
    }
}

fn failure(permission_denied: bool) -> IoError {
    IoError {
        permission_denied,
        message: "no luck".to_string(),
    }
}

#[test]
fn failed_deletions_say_what_failed() {
    let target = target(b"a", NodeKind::Directory);
    let error = target.check_mount(Err(failure(false))).unwrap_err();
    assert_eq!(error.message, "checking the mounted volume: no luck");
    let error = target.check_item(Err(failure(true))).unwrap_err();
    assert_eq!(
        error.message,
        "checking the selected item: permission denied. Akimi does not have permission to delete this item"
    );
    assert_eq!(io_error("doing", &failure(false)).message, "doing: no luck");
    let outcome = |action: DeleteAction| action.outcome(Err(failure(false))).unwrap_err().message;
    assert_eq!(
        outcome(DeleteAction::MoveToTrash),
        "moving the item to Trash: no luck"
    );
    assert_eq!(
        outcome(DeleteAction::RemoveDirectory),
        "deleting the folder: no luck"
    );
    assert_eq!(
        outcome(DeleteAction::RemoveFile),
        "deleting the file: no luck"
    );
    assert!(DeleteAction::RemoveFile.outcome(Ok(())).is_ok());
}

#[test]
fn symlinks_are_unlinked_and_folders_removed() {
    assert_eq!(
        target(b"a", NodeKind::Directory).action(DeleteMode::Permanent),
        DeleteAction::RemoveDirectory
    );
    assert_eq!(
        target(b"a", NodeKind::Symlink).action(DeleteMode::Permanent),
        DeleteAction::RemoveFile
    );
    assert_eq!(
        target(b"a", NodeKind::File).action(DeleteMode::Trash),
        DeleteAction::MoveToTrash
    );
    let copy = target(b"a/b", NodeKind::File).duplicate();
    assert_eq!(copy.path(), b"/mnt/data/a/b");
}

#[test]
fn paths_have_components() {
    let parts = components(b"/a/./b//../c/");
    assert_eq!(parts.len(), 5);
    assert!(matches!(parts[0], Component::Root));
    assert!(matches!(&parts[1], Component::Name(name) if name == b"a"));
    assert!(matches!(parts[3], Component::Parent));
    assert!(matches!(components(b"./a")[0], Component::Current));
    assert!(components(b"").is_empty());
    assert!(same_path(b"/a//b/", b"/a/b"));
    assert!(!same_path(b"a/b", b"/a/b"));
    assert!(path_before(b"/a", b"/a/b"));
    assert!(path_before(b"/a/b", b"/a-b"));
    assert!(!path_before(b"/b", b"/a"));
    assert!(is_absolute(b"/x"));
    assert_eq!(join(b"/a", b"b"), b"/a/b");
    assert_eq!(join(b"/a/", b"b"), b"/a/b");
    assert_eq!(join(b"/a", b"/b"), b"/b");
    assert_eq!(join(b"", b"b"), b"b");
}

#[test]
fn lack_of_permission_is_helped_where_it_can_be() {
    assert_eq!(open_fallback(true, true), OpenFallback::RequestDescriptor);
    assert_eq!(open_fallback(true, false), OpenFallback::Fail);
    assert_eq!(open_fallback(false, true), OpenFallback::Fail);
    assert!(scan_with_helper(true, true));
    assert!(!scan_with_helper(false, true));
    assert!(!scan_with_helper(true, false));
    assert_eq!(helper_failure(b"  denied \n", "exit status: 1"), "denied");
    assert_eq!(
        helper_failure(b" \n", "exit status: 1"),
        "btrfs authorization failed (exit status: 1)"
    );
    assert_eq!(helper_failure(b"\xff", "x"), "\u{fffd}");
}

#[test]
fn bus_errors_are_explained() {
    assert_eq!(
        describe_udisks_error(
            "Could not connect",
            Some("org.freedesktop.DBus.Error.ServiceUnknown"),
            "x"
        ),
        "UDisks2 is not running. Enable the UDisks2 service, then try again."
    );
    assert_eq!(
        describe_udisks_error("Could not connect", None, "x"),
        "Could not connect through UDisks2: x"
    );
    assert_eq!(
        describe_authorization_error(
            Some("org.freedesktop.UDisks2.Error.NotAuthorizedDismissed"),
            "x"
        ),
        "Read access was cancelled. The volume was not scanned."
    );
    assert!(describe_authorization_error(
        Some("org.freedesktop.UDisks2.Error.NotAuthorizedCanObtain"),
        "x"
    )
    .starts_with("Read access was not authorized."));
    assert_eq!(
        describe_authorization_error(Some("other"), "x"),
        "Could not obtain read-only access through UDisks2: x"
    );
}
