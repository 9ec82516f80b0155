use pixel_ota::bootctl::{
    finish, mark_successful, not_started, set_active_slot, shown, Invocation,
};
use pixel_ota::cli::{cmd_status, target_slot};
use pixel_ota::error::ErrorKind;
use pixel_ota::slot::{
    current, inactive, letter, letter_text, parse_slot_suffix, partition_path, BOOTCONFIG, CMDLINE,
};

#[test]
fn letter_and_inactive() {
    assert_eq!(letter(0), 'a');
    assert_eq!(letter(1), 'b');
    assert_eq!(inactive(0), 1);
    assert_eq!(inactive(1), 0);
}

#[test]
fn partition_paths() {
    assert_eq!(partition_path("boot", 1), "/dev/disk/by-partlabel/boot_b");
    assert_eq!(
        partition_path("vendor_boot", 0),
        "/dev/disk/by-partlabel/vendor_boot_a"
    );
}

#[test]
fn parses_bootconfig_form() {
    assert_eq!(
        parse_slot_suffix("androidboot.slot_suffix = \"_a\"\n"),
        Some(0)
    );
    assert_eq!(
        parse_slot_suffix("x\nandroidboot.slot_suffix = \"_b\"\ny"),
        Some(1)
    );
}

#[test]
fn parses_cmdline_form() {
    assert_eq!(
        parse_slot_suffix("console=ttynull androidboot.slot_suffix=_b root=/dev/x"),
        Some(1)
    );
}

#[test]
fn none_when_absent_or_bad() {
    assert_eq!(parse_slot_suffix("no suffix here"), None);
    assert_eq!(parse_slot_suffix("slot_suffix = \"_c\""), None);
}

#[test]
fn target_defaults_to_inactive() {
    assert_eq!(target_slot(0, None).unwrap(), 1);
    assert_eq!(target_slot(1, None).unwrap(), 0);
}

#[test]
fn target_override() {
    assert_eq!(target_slot(0, Some('A')).unwrap(), 0);
    assert_eq!(target_slot(0, Some('b')).unwrap(), 1);
    assert!(target_slot(0, Some('z')).is_err());
}

#[test]
fn bad_target_letter_is_invalid_input() {
    let err = target_slot(0, Some('z')).unwrap_err();
    assert_eq!(err.kind(), ErrorKind::InvalidInput);
    assert_eq!(err.message(), "slot must be a or b");
    assert_eq!(target_slot(1, Some('a')).unwrap(), 0);
    assert_eq!(target_slot(1, Some('B')).unwrap(), 1);
}

#[test]
fn any_slot_but_the_first_is_b() {
    assert_eq!(letter(2), 'b');
    assert_eq!(letter_text(0), "a");
    assert_eq!(letter_text(7), "b");
    assert_eq!(inactive(2), 1);
    assert_eq!(inactive(7), 0);
}

#[test]
fn slots_have_different_devices() {
    for name in ["boot", "pvmfw", "a", ""] {
        for other in ["boot", "dtbo", "b"] {
            assert_ne!(partition_path(name, 0), partition_path(other, 1));
        }
    }
}

#[test]
fn absolute_partition_name_replaces_the_directory() {
    assert_eq!(partition_path("/dev/boot", 0), "/dev/boot_a");
}

#[test]
fn suffix_is_the_first_underscore_behind_the_first_key() {
    assert_eq!(parse_slot_suffix("slot_suffix_b"), Some(1));
    assert_eq!(parse_slot_suffix("slot_suffix=foo_a_b"), Some(0));
    assert_eq!(parse_slot_suffix("slot_suffix=_c slot_suffix=_a"), None);
    assert_eq!(parse_slot_suffix("slot_suffix=_a slot_suffix=_b"), Some(0));
    assert_eq!(parse_slot_suffix("_a slot_suffix"), None);
    assert_eq!(parse_slot_suffix("slot_suffix=_"), None);
    assert_eq!(parse_slot_suffix("slot_suffix=_\u{e4}"), None);
    assert_eq!(parse_slot_suffix("\u{e4}\u{1f600} slot_suffix=\u{e4}_b"), Some(1));
    assert_eq!(parse_slot_suffix(""), None);
    assert_eq!(parse_slot_suffix("slot_suffi"), None);
    assert_eq!(parse_slot_suffix("slot_slot_suffix=_a"), Some(0));
}

#[test]
fn full_key_decides_over_other_keys() {
    assert_eq!(
        parse_slot_suffix("androidboot.prev_slot_suffix=_a androidboot.slot_suffix=_b"),
        Some(1)
    );
    assert_eq!(parse_slot_suffix("slot_suffix=_a androidboot.slot_suffix=_b"), Some(1));
    assert_eq!(
        parse_slot_suffix("androidboot.slot_suffix_old=_a androidboot.slot_suffix=_b"),
        Some(1)
    );
    assert_eq!(
        parse_slot_suffix("x.androidboot.slot_suffix=_a\nandroidboot.slot_suffix = \"_b\"\n"),
        Some(1)
    );
    assert_eq!(
        parse_slot_suffix("androidboot.slot_suffix=_a androidboot.slot_suffix=_b"),
        Some(0)
    );
    assert_eq!(parse_slot_suffix("slot_suffix=_a androidboot.slot_suffix=_c"), None);
    assert_eq!(parse_slot_suffix("prev_slot_suffix=_a xandroidboot.slot_suffix=_b"), Some(1));
    assert_eq!(parse_slot_suffix("slot_suffix=_a androidboot.slot_suffix"), None);
}

#[test]
fn other_keys_do_not_mislead_the_status() {
    let line = "androidboot.prev_slot_suffix=_a androidboot.slot_suffix=_b";
    assert_eq!(current(None, Some(line)).unwrap(), 1);
    assert_eq!(
        cmd_status(None, Some(line)).unwrap(),
        "current slot:  B\ninactive slot: A\n"
    );
}

#[test]
fn slot_is_read_back() {
    for slot in [0, 1] {
        let c = letter(slot);
        let config = format!("a = 1\nandroidboot.slot_suffix = \"_{c}\"\nb_b\n");
        let line = format!("quiet androidboot.slot_suffix=_{c} x_b");
        assert_eq!(parse_slot_suffix(&config), Some(slot));
        assert_eq!(parse_slot_suffix(&line), Some(slot));
    }
}

#[test]
fn bootconfig_decides_over_cmdline() {
    let a = "androidboot.slot_suffix=_a";
    let b = "androidboot.slot_suffix=_b";
    assert_eq!(current(Some(a), Some(b)).unwrap(), 0);
    assert_eq!(current(Some("nothing"), Some(b)).unwrap(), 1);
    assert_eq!(current(None, Some(a)).unwrap(), 0);
    assert_eq!(current(Some(b), None).unwrap(), 1);
}

#[test]
fn unknown_slot_is_not_found() {
    for (config, line) in [(None, None), (Some(""), None), (Some("x"), Some("y"))] {
        let err = current(config, line).unwrap_err();
        assert_eq!(err.kind(), ErrorKind::NotFound);
        assert_eq!(
            err.message(),
            "could not determine current slot from androidboot.slot_suffix"
        );
    }
}

#[test]
fn kernel_files() {
    assert_eq!(BOOTCONFIG, "/proc/bootconfig");
    assert_eq!(CMDLINE, "/proc/cmdline");
}

#[test]
fn status_names_both_slots() {
    assert_eq!(
        cmd_status(Some("androidboot.slot_suffix = \"_a\"\n"), None).unwrap(),
        "current slot:  A\ninactive slot: B\n"
    );
    assert_eq!(
        cmd_status(None, Some("androidboot.slot_suffix=_b")).unwrap(),
        "current slot:  B\ninactive slot: A\n"
    );
    assert_eq!(
        cmd_status(None, None).unwrap_err().kind(),
        ErrorKind::NotFound
    );
}

#[test]
fn switch_command() {
    let inv = set_active_slot(1);
    assert_eq!(inv.program, "pixel-bootctl");
    assert_eq!(inv.args, ["set-active-slot", "b"]);
    assert_eq!(shown(&inv), "pixel-bootctl set-active-slot b");
    assert_eq!(set_active_slot(0).args, ["set-active-slot", "a"]);
}

#[test]
fn commit_command() {
    let inv = mark_successful();
    assert_eq!(inv.program, "pixel-bootctl");
    assert_eq!(inv.args, ["mark-successful"]);
    assert_eq!(shown(&inv), "pixel-bootctl mark-successful");
}

#[test]
fn full_key_inside_another_is_read_back() {
    assert_eq!(parse_slot_suffix("slot_suffix=_a xandroidboot.slot_suffix=_b"), Some(1));
    assert_eq!(
        parse_slot_suffix("xandroidboot.slot_suffix=_a androidboot.slot_suffixes=_b"),
        Some(0)
    );
}

#[test]
fn command_is_shown_with_spaces_between() {
    let inv = |args: &[&str]| Invocation {
        program: "tool".to_string(),
        args: args.iter().map(|a| a.to_string()).collect(),
    };
    for args in [&[][..], &["one"], &["", ""], &["a", "b c", "d"]] {
        assert_eq!(shown(&inv(args)), format!("tool {}", args.join(" ")));
    }
}

#[test]
fn command_that_failed_is_reported() {
    let inv = set_active_slot(0);
    assert!(finish(&inv, true, "exit status: 0").is_ok());
    let err = finish(&inv, false, "exit status: 3").unwrap_err();
    assert_eq!(err.kind(), ErrorKind::Other);
    assert_eq!(
        err.message(),
        "`pixel-bootctl set-active-slot a` exited with exit status: 3"
    );
}

#[test]
fn command_that_did_not_start_is_reported() {
    assert_eq!(
        not_started("No such file or directory (os error 2)"),
        "failed to run `pixel-bootctl` (is it installed/on PATH?): No such file or directory (os error 2)"
    );
}
