use pixel_ota::cli::cmd_update;
use pixel_ota::error::{ErrorKind, Failure, OtaError};
use pixel_ota::update::{next, plan, run, Event, Plan, Stage, Step, Work};

fn names(list: &[&str]) -> Vec<Option<String>> {
    list.iter().map(|s| Some(s.to_string())).collect()
}

fn ok(list: &[&str]) -> Result<Vec<Option<String>>, String> {
    Ok(names(list))
}

fn ota<T: std::fmt::Debug, E: std::fmt::Debug>(res: Result<T, Failure<E>>) -> OtaError {
    match res {
        Err(Failure::Ota(e)) => e,
        other => panic!("{other:?}"),
    }
}

fn two_images() -> Plan {
    plan("/img", ok(&["vendor_boot.img", "boot.img"]), 0, 1).unwrap()
}

#[test]
fn refuses_active_slot() {
    let listing: Result<Vec<Option<String>>, &str> = Err("No such file or directory");
    let err = ota(plan("/nonexistent", listing, 0, 0));
    assert_eq!(err.kind(), ErrorKind::InvalidInput);
}

#[test]
fn refusal_names_the_slot() {
    let err = ota(plan("/img", ok(&["boot.img"]), 1, 1));
    assert_eq!(err.kind(), ErrorKind::InvalidInput);
    assert_eq!(
        err.message(),
        "refusing to flash the active slot (b); pixel-ota flashes the inactive slot"
    );
}

#[test]
fn listing_failure_is_passed_on() {
    let listing: Result<Vec<Option<String>>, &str> = Err("gone");
    match plan("/nonexistent", listing, 0, 1) {
        Err(Failure::Io(e)) => assert_eq!(e, "gone"),
        other => panic!("{other:?}"),
    }
}

#[test]
fn plan_is_in_chain_order() {
    let p = plan(
        "/img",
        ok(&["pvmfw.img", "super.img", "vbmeta_vendor.img", "boot.img", "notes.txt", "dtbo"]),
        0,
        1,
    )
    .unwrap();
    assert_eq!((p.current, p.target), (0, 1));
    let items: Vec<_> = p
        .items
        .iter()
        .map(|(i, part, d)| (i.as_str(), *part, d.as_str()))
        .collect();
    assert_eq!(
        items,
        [
            ("/img/boot.img", "boot", "/dev/disk/by-partlabel/boot_b"),
            ("/img/dtbo", "dtbo", "/dev/disk/by-partlabel/dtbo_b"),
            (
                "/img/vbmeta_vendor.img",
                "vbmeta_vendor",
                "/dev/disk/by-partlabel/vbmeta_vendor_b"
            ),
            ("/img/pvmfw.img", "pvmfw", "/dev/disk/by-partlabel/pvmfw_b"),
        ]
    );
}

#[test]
fn images_for_one_partition_keep_their_order() {
    let images = |list: &[&str]| -> Vec<String> {
        let p = plan("d/", ok(list), 1, 0).unwrap();
        p.items.into_iter().map(|(image, _, _)| image).collect()
    };
    assert_eq!(images(&["boot", "boot.img"]), ["d/boot", "d/boot.img"]);
    assert_eq!(images(&["boot.img", "dtbo", "boot"]), ["d/boot.img", "d/boot", "d/dtbo"]);
}

#[test]
fn names_that_are_not_unicode_are_skipped() {
    let mut list = names(&["boot.img"]);
    list.push(None);
    let listing: Result<Vec<Option<String>>, ()> = Ok(list);
    let p = plan("/img", listing, 1, 0).unwrap();
    assert_eq!(p.items.len(), 1);
    assert_eq!(p.items[0].2, "/dev/disk/by-partlabel/boot_a");
}

#[test]
fn plan_spares_the_running_slot() {
    let p = two_images();
    for (_, _, dev) in &p.items {
        assert!(dev.ends_with("_b"));
    }
}

#[test]
fn empty_plan_is_refused() {
    let p = plan("/img", ok(&["super.img"]), 0, 1).unwrap();
    for dry_run in [false, true] {
        let err = run(&p, dry_run, false).unwrap_err();
        assert_eq!(err.kind(), ErrorKind::NotFound);
        assert_eq!(err.message(), "no boot-chain images found in directory");
    }
}

/// Reports good outcomes until the run is over. Gives all texts, and the work in short.
fn drive(p: &Plan, dry_run: bool, no_switch: bool) -> (String, Vec<String>) {
    let mut said = String::new();
    let mut done = Vec::new();
    let mut step: Step = run(p, dry_run, no_switch).unwrap();
    loop {
        said.push_str(&step.say);
        let event = match &step.work {
            Work::Check { dev } => {
                done.push(format!("check {dev}"));
                Event::Present(true)
            }
            Work::Measure { image, dev } => {
                done.push(format!("measure {image} {dev}"));
                Event::Sizes { image_len: 10, part_len: 20 }
            }
            Work::Write { image, dev } => {
                done.push(format!("write {image} {dev}"));
                Event::Written
            }
            Work::Call(inv) => {
                done.push(format!("call {} {}", inv.program, inv.args.join(" ")));
                Event::Exited { success: true, status: "exit status: 0".to_string() }
            }
            Work::Nothing => {
                assert_eq!(step.stage, Stage::Finished);
                return (said, done);
            }
        };
        step = next(p, dry_run, no_switch, step.stage, &event).unwrap();
    }
}

#[test]
fn full_run() {
    let (said, done) = drive(&two_images(), false, false);
    assert_eq!(
        said,
        "updating slot a -> b (2 image(s))\n\
         \x20 flashed boot -> /dev/disk/by-partlabel/boot_b (10 bytes)\n\
         \x20 flashed vendor_boot -> /dev/disk/by-partlabel/vendor_boot_b (10 bytes)\n\
         active slot set to b (rollback-safe: marked active, NOT successful).\n\
         reboot to apply. After a confirmed-good boot, run `pixel-ota confirm` (or let the \
         boot-success service) to commit it — otherwise the bootloader rolls back to a.\n"
    );
    assert_eq!(
        done,
        [
            "check /dev/disk/by-partlabel/boot_b",
            "measure /img/boot.img /dev/disk/by-partlabel/boot_b",
            "write /img/boot.img /dev/disk/by-partlabel/boot_b",
            "check /dev/disk/by-partlabel/vendor_boot_b",
            "measure /img/vendor_boot.img /dev/disk/by-partlabel/vendor_boot_b",
            "write /img/vendor_boot.img /dev/disk/by-partlabel/vendor_boot_b",
            "call pixel-bootctl set-active-slot b",
        ]
    );
}

#[test]
fn dry_run_writes_and_switches_nothing() {
    let (said, done) = drive(&two_images(), true, false);
    assert_eq!(
        said,
        "updating slot a -> b (2 image(s)) [dry-run]\n\
         \x20 would flash boot -> /dev/disk/by-partlabel/boot_b (10 bytes)\n\
         \x20 would flash vendor_boot -> /dev/disk/by-partlabel/vendor_boot_b (10 bytes)\n\
         would set active slot -> b via pixel-bootctl (rollback-safe: active, not successful)\n"
    );
    assert_eq!(done.len(), 4);
    assert!(done.iter().all(|w| w.starts_with("check") || w.starts_with("measure")));
}

#[test]
fn no_switch_flashes_only() {
    let (said, done) = drive(&two_images(), false, true);
    assert!(said.ends_with("--no-switch: leaving active slot unchanged\n"));
    assert_eq!(done.iter().filter(|w| w.starts_with("write")).count(), 2);
    assert!(!done.iter().any(|w| w.starts_with("call")));
    let (said, done) = drive(&two_images(), true, true);
    assert!(said.ends_with("--no-switch: leaving active slot unchanged\n"));
    assert_eq!(done.len(), 4);
}

#[test]
fn missing_device_stops_the_run() {
    let p = two_images();
    let err = next(&p, false, false, Stage::Checking(1), &Event::Present(false)).unwrap_err();
    assert_eq!(err.kind(), ErrorKind::NotFound);
    assert_eq!(
        err.message(),
        "target device /dev/disk/by-partlabel/vendor_boot_b not found"
    );
}

#[test]
fn image_too_large_stops_the_run() {
    let p = two_images();
    for dry_run in [false, true] {
        let sizes = Event::Sizes { image_len: 21, part_len: 20 };
        let err = next(&p, dry_run, false, Stage::Measuring(0), &sizes).unwrap_err();
        assert_eq!(err.kind(), ErrorKind::InvalidInput);
        assert_eq!(
            err.message(),
            "/img/boot.img (21 bytes) does not fit /dev/disk/by-partlabel/boot_b (20 bytes)"
        );
    }
}

#[test]
fn failed_switch_stops_the_run() {
    let p = two_images();
    let exited = Event::Exited { success: false, status: "exit status: 1".to_string() };
    let err = next(&p, false, false, Stage::Switching, &exited).unwrap_err();
    assert_eq!(err.kind(), ErrorKind::Other);
    assert_eq!(
        err.message(),
        "`pixel-bootctl set-active-slot b` exited with exit status: 1"
    );
}

#[test]
fn unexpected_events_are_out_of_step() {
    let p = two_images();
    for (stage, event) in [
        (Stage::Checking(0), Event::Written),
        (Stage::Checking(2), Event::Present(true)),
        (Stage::Measuring(0), Event::Present(true)),
        (Stage::Writing(0, 10), Event::Present(true)),
        (Stage::Switching, Event::Written),
        (Stage::Finished, Event::Written),
    ] {
        let err = next(&p, false, false, stage, &event).unwrap_err();
        assert!(matches!(err, OtaError::OutOfStep));
        assert_eq!(err.kind(), ErrorKind::Other);
        assert_eq!(err.message(), "event out of step");
    }
}

#[test]
fn update_targets_the_inactive_slot() {
    let p = cmd_update("/img", ok(&["boot.img"]), None, Some("androidboot.slot_suffix=_b"), None)
        .unwrap();
    assert_eq!((p.current, p.target), (1, 0));
    assert_eq!(p.items[0].2, "/dev/disk/by-partlabel/boot_a");
}

#[test]
fn update_is_not_misled_by_other_keys() {
    let line = "androidboot.prev_slot_suffix=_a androidboot.slot_suffix=_b";
    let p = cmd_update("/img", ok(&["boot.img"]), Some(line), None, None).unwrap();
    assert_eq!((p.current, p.target), (1, 0));
    let err = ota(cmd_update("/img", ok(&["boot.img"]), Some(line), None, Some('b')));
    assert!(matches!(err, OtaError::ActiveSlot { slot: 1 }));
}

#[test]
fn failed_run_leaves_the_first_images_written() {
    let p = two_images();
    let events = [
        Event::Present(true),
        Event::Sizes { image_len: 10, part_len: 20 },
        Event::Written,
    ];
    let mut step = run(&p, false, false).unwrap();
    let mut written = Vec::new();
    for event in &events {
        step = next(&p, false, false, step.stage, event).unwrap();
        if let Work::Write { image, .. } = &step.work {
            written.push(image.clone());
        }
    }
    assert_eq!(step.stage, Stage::Checking(1));
    assert_eq!(written, ["/img/boot.img"]);
    assert!(next(&p, false, false, step.stage, &Event::Present(false)).is_err());
}

#[test]
fn update_refusals_come_in_order() {
    let gone = || -> Result<Vec<Option<String>>, &str> { Err("gone") };
    let a = Some("androidboot.slot_suffix=_a");
    assert!(matches!(
        ota(cmd_update("/img", gone(), None, None, Some('z'))),
        OtaError::SlotUnknown
    ));
    assert!(matches!(
        ota(cmd_update("/img", gone(), a, None, Some('z'))),
        OtaError::BadSlot
    ));
    assert!(matches!(
        ota(cmd_update("/img", gone(), a, None, Some('A'))),
        OtaError::ActiveSlot { slot: 0 }
    ));
    assert!(matches!(
        cmd_update("/img", gone(), a, None, Some('b')),
        Err(Failure::Io("gone"))
    ));
}
