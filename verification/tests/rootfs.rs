use pixel_ota::error::{ErrorKind, Failure, OtaError};
use pixel_ota::rootfs::{
    arm, backing_from_mountinfo, backing_mount, budget_overflows, mem_total_bytes, mem_total_kb,
    next, plan,
    ram_budget, run, shutdown_script, unescape, Backing, Event, FileOp, Plan, Probe, Source, Stage, Staging,
    Work, BUSYBOX_DEFAULT, ROOT_DEV,
};

fn staged() -> Source {
    Source::Staged(Backing {
        node: "/dev/sda31".to_string(),
        fstype: "ext4".to_string(),
        fs_path: "/rootfs.img".to_string(),
    })
}

fn backing(node: &str) -> Backing {
    Backing {
        node: node.to_string(),
        fstype: "ext4".to_string(),
        fs_path: "/rootfs.img".to_string(),
    }
}

fn memory(kb: u64) -> String {
    format!("MemTotal:       {kb} kB\nMemFree:        1 kB\n")
}

fn probe(staging: Staging<&'static str>) -> Probe<&'static str> {
    Probe {
        image_len: Ok(5_000),
        part_len: Ok(8_000),
        busybox_present: true,
        real_node: Ok("/dev/sda30".to_string()),
        staging,
    }
}

fn request(p: Probe<&'static str>) -> Result<Plan, Failure<&'static str>> {
    plan("/tmp/r.img", ROOT_DEV, BUSYBOX_DEFAULT, 60, p)
}

fn ota(res: Result<Plan, Failure<&'static str>>) -> OtaError {
    match res {
        Err(Failure::Ota(e)) => e,
        other => panic!("{other:?}"),
    }
}

fn io(res: Result<Plan, Failure<&'static str>>) -> &'static str {
    match res {
        Err(Failure::Io(e)) => e,
        other => panic!("{other:?}"),
    }
}

#[test]
fn budget_is_percent_of_ram() {
    assert_eq!(ram_budget(10_000, 60), 6_000);
    assert_eq!(ram_budget(0, 60), 0);
}

#[test]
fn ram_script_targets_real_node_and_staged_image() {
    let s = shutdown_script("/dev/sda30", &Source::Ram);
    assert!(s.starts_with("#!/busybox sh\n"));
    assert!(s.contains("dd if=/rootfs.img of=/dev/sda30 bs=4M conv=fsync"));
    assert!(s.contains("umount -r -l /oldroot"));
    assert!(s.contains("reboot -f"));
    assert!(!s.contains("/stage"));
}

#[test]
fn staged_script_mounts_partition_and_dds_from_it() {
    let src = Source::Staged(Backing {
        node: "/dev/sda31".to_string(),
        fstype: "ext4".to_string(),
        fs_path: "/rootfs.img".to_string(),
    });
    let s = shutdown_script("/dev/sda30", &src);
    assert!(s.contains("mount -t ext4 -o ro /dev/sda31 /stage"));
    assert!(s.contains("dd if=/stage/rootfs.img of=/dev/sda30 bs=4M conv=fsync"));
    assert!(s.contains("pixel-ota-flash.log"));
}

#[test]
fn backing_resolves_longest_prefix_mount() {
    // userdata mounted at /mnt/ud (root "/"); root fs at "/".
    let mi = "23 1 8:30 / / rw,relatime shared:1 - ext4 /dev/sda30 rw\n\
              44 23 8:31 / /mnt/ud rw,relatime shared:2 - ext4 /dev/sda31 rw,stripe=128\n";
    let (src, fstype, fs_path) = backing_from_mountinfo(mi, "/mnt/ud/sub/rootfs.img").unwrap();
    assert_eq!(src, "/dev/sda31");
    assert_eq!(fstype, "ext4");
    assert_eq!(fs_path, "/sub/rootfs.img");
}

#[test]
fn plan_rejects_image_larger_than_partition() {
    // The root device is /dev/null (0 bytes), so nothing fits.
    let found: Probe<()> = Probe {
        image_len: Ok(16_384),
        part_len: Ok(0),
        busybox_present: true,
        real_node: Ok("/dev/null".to_string()),
        staging: Staging::Ram(Ok("MemTotal:        7812500 kB\n".to_string())),
    };
    match plan("src/rootfs.rs", "/dev/null", BUSYBOX_DEFAULT, 60, found) {
        Err(Failure::Ota(err)) => assert_eq!(err.kind(), ErrorKind::InvalidInput),
        other => panic!("{other:?}"),
    }
}

#[test]
fn budget_rounds_down() {
    assert_eq!(ram_budget(199, 60), 60);
    assert_eq!(ram_budget(99, 100), 0);
    assert_eq!(ram_budget(u64::MAX, 100), u64::MAX / 100 * 100);
    assert_eq!(ram_budget(10_000, 0), 0);
    assert_eq!(ram_budget(10_000, 255), 25_500);
}

#[test]
fn memory_size_is_read() {
    let text = "MemTotal:       11861976 kB\nMemFree:         1234 kB\n";
    assert_eq!(mem_total_kb(text), Some(11_861_976));
    assert_eq!(mem_total_bytes(text).unwrap(), 11_861_976 * 1024);
}

#[test]
fn first_readable_total_counts() {
    assert_eq!(mem_total_kb("MemFree: 1 kB\r\nMemTotal: 2 kB\r\n"), Some(2));
    assert_eq!(mem_total_kb("MemTotal: x\nMemTotal:\nMemTotal: +7"), Some(7));
    assert_eq!(mem_total_kb("MemTotal:3\nMemTotal:4"), Some(3));
    assert_eq!(mem_total_kb(" MemTotal: 5"), None);
    assert_eq!(mem_total_kb(""), None);
}

#[test]
fn missing_total_is_not_found() {
    let err = mem_total_bytes("MemFree: 1 kB\n").unwrap_err();
    assert_eq!(err.kind(), ErrorKind::NotFound);
    assert_eq!(err.message(), "MemTotal not found in /proc/meminfo");
}

#[test]
fn target_without_mount_is_not_found() {
    let mi = "44 23 8:31 / /mnt/ud rw - ext4 /dev/sda31 rw\n";
    let err = backing_from_mountinfo(mi, "/mnt/udx/rootfs.img").unwrap_err();
    assert_eq!(err.kind(), ErrorKind::NotFound);
    assert_eq!(
        err.message(),
        "no backing mount found for /mnt/udx/rootfs.img"
    );
    assert!(backing_from_mountinfo("", "/x").is_err());
}

#[test]
fn lines_that_are_no_mounts_are_skipped() {
    let mi = "23 1 8:30 / / rw ext4 /dev/sda30 rw\n\
              23 1 8:30 / - ext4 /dev/sda29 rw\n\
              23 1 8:30 / / rw - ext4\n\
              23 1 8:30 / / rw - ext4 /dev/sda28\n";
    let (src, _, fs_path) = backing_from_mountinfo(mi, "/a/b").unwrap();
    assert_eq!(src, "/dev/sda28");
    assert_eq!(fs_path, "/a/b");
}

#[test]
fn later_of_two_equal_mounts_holds() {
    let mi = "1 1 8:1 / /mnt rw - ext4 /dev/one rw\n2 1 8:2 /sub /mnt rw - btrfs /dev/two rw\n\
              3 1 8:3 / / rw - ext4 /dev/three rw\n";
    let (src, fstype, fs_path) = backing_from_mountinfo(mi, "/mnt/x/y").unwrap();
    assert_eq!((src.as_str(), fstype.as_str()), ("/dev/two", "btrfs"));
    assert_eq!(fs_path, "/sub/x/y");
}

#[test]
fn mount_point_itself_is_covered() {
    let mi = "1 1 8:1 /sub /mnt rw - ext4 /dev/one rw\n";
    let (_, _, fs_path) = backing_from_mountinfo(mi, "/mnt").unwrap();
    assert_eq!(fs_path, "/sub/");
    let mi = "1 1 8:1 / /mnt rw - ext4 /dev/one rw\n";
    let (_, _, fs_path) = backing_from_mountinfo(mi, "/mnt").unwrap();
    assert_eq!(fs_path, "/");
}

#[test]
fn mount_points_are_compared_in_bytes() {
    // "/\u{e4}" is shorter than "/./" in characters, and as long in bytes.
    let mi = "1 1 8:1 / /./ rw - ext4 /dev/one rw\n2 1 8:2 / /\u{e4} rw - ext4 /dev/two rw\n";
    let (src, _, fs_path) = backing_from_mountinfo(mi, "/\u{e4}/x").unwrap();
    assert_eq!(src, "/dev/two");
    assert_eq!(fs_path, "/x");
}

#[test]
fn escaped_mount_points_are_decoded() {
    let mi = "23 1 8:30 / / rw - ext4 /dev/sda30 rw\n\
              44 23 8:31 / /mnt/my\\040disk rw - ext4 /dev/sda31 rw\n";
    let found = backing_from_mountinfo(mi, "/mnt/my disk/r.img").unwrap();
    assert_eq!(
        found,
        ("/dev/sda31".to_string(), "ext4".to_string(), "/r.img".to_string())
    );
    let (src, _, _) = backing_from_mountinfo(mi, "/mnt/my\\040disk/r.img").unwrap();
    assert_eq!(src, "/dev/sda30");
}

#[test]
fn escaped_roots_and_sources_are_decoded() {
    let mi = "1 1 8:1 /a\\040b /m\\011\\012\\134n rw - ext4 /dev/disk\\040one rw\n";
    let (src, _, fs_path) = backing_from_mountinfo(mi, "/m\t\n\\n/x").unwrap();
    assert_eq!(src, "/dev/disk one");
    assert_eq!(fs_path, "/a b/x");
}

#[test]
fn only_the_four_escapes_are_decoded() {
    assert_eq!(unescape("\\040\\011\\012\\134"), " \t\n\\");
    assert_eq!(unescape("\\134040"), "\\040");
    for w in ["", "/mnt", "\\", "\\04", "\\041", "\\x040"] {
        assert_eq!(unescape(w), w);
    }
    assert_eq!(unescape("\\\\040"), "\\ ");
    assert_eq!(unescape("\u{e4}\\040\u{1f600}"), "\u{e4} \u{1f600}");
}

#[test]
fn lines_that_do_not_cover_change_nothing() {
    let one = "2 1 8:1 / / rw - ext4 /dev/one rw";
    let two = "3 1 8:2 / /mnt rw - ext4 /dev/two rw";
    let want = backing_from_mountinfo(&format!("{one}\n{two}\n"), "/mnt/x").unwrap();
    let other = "9 1 8:9 / /srv/long/mount/point rw - ext4 /dev/nine rw";
    for mi in [
        format!("{two}\n{one}\n"),
        format!("{other}\n{one}\nno mount\n{two}\n{other}\n"),
        format!("\n{two}\n{other}\n{one}\n1 2 3 / - ext4 /dev/x\n"),
    ] {
        assert_eq!(backing_from_mountinfo(&mi, "/mnt/x").unwrap(), want);
    }
}

#[test]
fn node_is_canonical_where_it_can_be() {
    let found = || ("/dev/root".to_string(), "ext4".to_string(), "/r.img".to_string());
    let b = backing_mount(found(), Some("/dev/sda31".to_string()));
    assert_eq!(b.node, "/dev/sda31");
    assert_eq!((b.fstype.as_str(), b.fs_path.as_str()), ("ext4", "/r.img"));
    assert_eq!(backing_mount(found(), None).node, "/dev/root");
}

#[test]
fn ram_script_in_full() {
    assert_eq!(
        shutdown_script("/dev/sda30", &Source::Ram),
        "#!/busybox sh\n\
         # pixel-ota: flash the live rootfs after systemd pivoted into the shutdown initramfs.\n\
         BB=/busybox\n\
         $BB mount -t devtmpfs dev /dev 2>/dev/null\n\
         $BB mount -t proc proc /proc 2>/dev/null\n\
         # release the old root tree so /dev/sda30 is no longer busy, then flash it.\n\
         $BB umount -r -l /oldroot 2>/dev/null\n\
         $BB dd if=/rootfs.img of=/dev/sda30 bs=4M conv=fsync\n\
         RC=$?\n\
         $BB sync\n\
         echo \"pixel-ota flash-rootfs: dd rc=$RC\" > /dev/kmsg 2>/dev/null\n\
         $BB sleep 2\n\
         $BB reboot -f\n"
    );
}

#[test]
fn staged_script_in_full() {
    assert_eq!(
        shutdown_script("/dev/sda30", &staged()),
        "#!/busybox sh\n\
         # pixel-ota: flash the live rootfs after systemd pivoted into the shutdown initramfs.\n\
         BB=/busybox\n\
         $BB mount -t devtmpfs dev /dev 2>/dev/null\n\
         $BB mount -t proc proc /proc 2>/dev/null\n\
         # release the old root tree so /dev/sda30 is no longer busy, then flash it.\n\
         $BB umount -r -l /oldroot 2>/dev/null\n\
         $BB mkdir -p /stage\n\
         $BB mount -t ext4 -o ro /dev/sda31 /stage\n\
         $BB dd if=/stage/rootfs.img of=/dev/sda30 bs=4M conv=fsync\n\
         RC=$?\n\
         $BB sync\n\
         echo \"pixel-ota flash-rootfs: dd rc=$RC\" > /dev/kmsg 2>/dev/null\n\
         $BB mount -o remount,rw /stage 2>/dev/null\n\
         echo \"pixel-ota flash-rootfs: dd rc=$RC ($($BB date 2>/dev/null))\" >> /stage/pixel-ota-flash.log 2>/dev/null\n\
         $BB umount /stage 2>/dev/null\n\
         $BB sleep 2\n\
         $BB reboot -f\n"
    );
}

#[test]
fn plan_in_memory() {
    let p = request(probe(Staging::Ram(Ok(memory(10))))).unwrap();
    assert_eq!(p.image, "/tmp/r.img");
    assert_eq!(p.image_len, 5_000);
    assert_eq!(p.root_dev, "/dev/disk/by-partlabel/super");
    assert_eq!(p.real_node, "/dev/sda30");
    assert_eq!(p.busybox, "/bin/busybox");
    assert!(matches!(p.source, Source::Ram));
    assert_eq!(p.budget, 6_120);
}

#[test]
fn plan_staged() {
    let p = request(probe(Staging::Staged(Ok(backing("/dev/sda31"))))).unwrap();
    match p.source {
        Source::Staged(b) => assert_eq!(b.node, "/dev/sda31"),
        other => panic!("{other:?}"),
    }
    assert_eq!(p.budget, 0);
}

#[test]
fn image_over_budget_is_refused() {
    let err = ota(request(probe(Staging::Ram(Ok(memory(8))))));
    assert_eq!(err.kind(), ErrorKind::InvalidInput);
    assert_eq!(
        err.message(),
        "image (5000 bytes) exceeds the RAM staging budget (4860 bytes, 60% of RAM); use --staged to flash from a persistent partition"
    );
}

#[test]
fn overflowing_budgets_are_found() {
    let over = |kb: u64, pct: u8| budget_overflows(&probe(Staging::Ram(Ok(memory(kb)))), pct);
    assert!(!over(10, 255));
    assert!(!over(u64::MAX / 1024, 100));
    assert!(over(u64::MAX / 1024, 101));
    assert!(over(u64::MAX / 1024 + 1, 0));
    let mut p = probe(Staging::Ram(Ok(memory(u64::MAX))));
    p.busybox_present = false;
    assert!(!budget_overflows(&p, 100));
    assert!(!budget_overflows(&probe(Staging::Ram(Ok(String::new()))), 255));
    assert!(!budget_overflows(&probe(Staging::Staged(Err(Failure::Io("x")))), 255));
}

#[test]
fn order_matters_only_among_the_longest() {
    let lines = [
        "1 1 8:1 / /mnt/ rw - ext4 /dev/one rw",
        "2 1 8:2 / //mnt rw - ext4 /dev/two rw",
        "3 1 8:3 / /mnt/ud rw - ext4 /dev/three rw",
    ];
    for order in [[0, 1, 2], [2, 1, 0], [1, 2, 0]] {
        let mi = order.map(|i| lines[i]).join("\n");
        let (src, _, _) = backing_from_mountinfo(&mi, "/mnt/ud/x").unwrap();
        assert_eq!(src, "/dev/three");
    }
}

#[test]
fn image_on_the_target_is_refused() {
    for node in ["/dev/sda30", "/dev//sda30/", "/dev/./sda30"] {
        let err = ota(request(probe(Staging::Staged(Ok(backing(node))))));
        assert_eq!(err.kind(), ErrorKind::InvalidInput);
        assert_eq!(
            err.message(),
            "staged image is on the target partition (/dev/sda30); stage it on a different partition (e.g. userdata)"
        );
    }
}

#[test]
fn missing_busybox_is_not_found() {
    let mut p = probe(Staging::Ram(Ok(memory(10))));
    p.busybox_present = false;
    let err = ota(request(p));
    assert_eq!(err.kind(), ErrorKind::NotFound);
    assert_eq!(err.message(), "busybox not found at /bin/busybox");
}

#[test]
fn image_larger_than_the_root_is_refused() {
    let mut p = probe(Staging::Ram(Ok(memory(10))));
    p.part_len = Ok(4_999);
    p.busybox_present = false;
    assert_eq!(
        ota(request(p)).message(),
        "image (5000 bytes) does not fit /dev/disk/by-partlabel/super (4999 bytes)"
    );
}

#[test]
fn first_failure_is_reported() {
    let bad = || {
        let mut p = probe(Staging::Ram(Err("meminfo")));
        p.image_len = Err("image");
        p.part_len = Err("part");
        p.real_node = Err("node");
        p.busybox_present = false;
        p
    };
    assert_eq!(io(request(bad())), "image");
    let mut p = bad();
    p.image_len = Ok(5_000);
    assert_eq!(io(request(p)), "part");
    let mut p = bad();
    p.image_len = Ok(5_000);
    p.part_len = Ok(5_000);
    assert!(matches!(ota(request(p)), OtaError::BusyboxMissing { .. }));
    let mut p = bad();
    p.image_len = Ok(5_000);
    p.part_len = Ok(5_000);
    p.busybox_present = true;
    assert_eq!(io(request(p)), "node");
    let p = probe(Staging::Ram(Err("meminfo")));
    assert_eq!(io(request(p)), "meminfo");
    let p = probe(Staging::Ram(Ok("MemFree: 1 kB\n".to_string())));
    assert!(matches!(ota(request(p)), OtaError::MemTotalMissing));
    let p = probe(Staging::Staged(Err(Failure::Io("mountinfo"))));
    assert_eq!(io(request(p)), "mountinfo");
}

fn short(op: &FileOp) -> String {
    match op {
        FileOp::MakeDirs { path } => format!("mkdir {path}"),
        FileOp::Copy { from, to } => format!("copy {from} {to}"),
        FileOp::SetMode { path, mode } => format!("chmod {mode:o} {path}"),
        FileOp::Write { path, .. } => format!("write {path}"),
    }
}

#[test]
fn arming_in_memory() {
    let p = request(probe(Staging::Ram(Ok(memory(10))))).unwrap();
    let ops = arm(&p);
    assert_eq!(
        ops.iter().map(short).collect::<Vec<_>>(),
        [
            "mkdir /run/initramfs",
            "copy /bin/busybox /run/initramfs/busybox",
            "chmod 755 /run/initramfs/busybox",
            "copy /tmp/r.img /run/initramfs/rootfs.img",
            "write /run/initramfs/shutdown",
            "chmod 755 /run/initramfs/shutdown",
        ]
    );
    match &ops[4] {
        FileOp::Write { text, .. } => assert_eq!(*text, shutdown_script("/dev/sda30", &Source::Ram)),
        other => panic!("{other:?}"),
    }
}

#[test]
fn arming_staged_copies_no_image() {
    let p = request(probe(Staging::Staged(Ok(backing("/dev/sda31"))))).unwrap();
    let ops = arm(&p);
    assert_eq!(
        ops.iter().map(short).collect::<Vec<_>>(),
        [
            "mkdir /run/initramfs",
            "copy /bin/busybox /run/initramfs/busybox",
            "chmod 755 /run/initramfs/busybox",
            "write /run/initramfs/shutdown",
            "chmod 755 /run/initramfs/shutdown",
        ]
    );
    match &ops[3] {
        FileOp::Write { text, .. } => assert_eq!(*text, shutdown_script("/dev/sda30", &staged())),
        other => panic!("{other:?}"),
    }
}

#[test]
fn dry_run_shows_the_script() {
    let p = request(probe(Staging::Ram(Ok(memory(10))))).unwrap();
    let step = run(&p, true);
    assert_eq!(step.stage, Stage::Finished);
    assert!(matches!(step.work, Work::Nothing));
    assert_eq!(
        step.say,
        format!(
            "flash-rootfs: /tmp/r.img (5000 bytes) -> /dev/disk/by-partlabel/super (node /dev/sda30) [dry-run]\n\
             \x20 staging in RAM (5000 of 6120 byte budget), via systemd shutdown initramfs at /run/initramfs\n\
             --- /run/initramfs/shutdown ---\n\
             {}would copy busybox /bin/busybox and arm, then reboot\n",
            shutdown_script("/dev/sda30", &Source::Ram)
        )
    );
}

#[test]
fn run_arms_then_reboots() {
    let p = request(probe(Staging::Staged(Ok(backing("/dev/sda31"))))).unwrap();
    let step = run(&p, false);
    assert_eq!(
        step.say,
        "flash-rootfs: /tmp/r.img (5000 bytes) -> /dev/disk/by-partlabel/super (node /dev/sda30)\n\
         \x20 staged on /dev/sda31 (ext4), mounted + flashed from the shutdown initramfs at /run/initramfs\n"
    );
    assert_eq!(step.stage, Stage::Arming);
    match &step.work {
        Work::Arm(ops) => assert_eq!(ops.len(), 5),
        other => panic!("{other:?}"),
    }
    let step = next(&p, false, step.stage, &Event::Armed).unwrap();
    assert_eq!(
        step.say,
        "armed /run/initramfs (busybox + shutdown script).\n\
         WARNING: the next reboot will overwrite /dev/sda30 in place. No rollback — a bad image needs \
         fastboot/recovery to recover.\n\
         rebooting now to flash...\n"
    );
    match &step.work {
        Work::Call(inv) => {
            assert_eq!(inv.program, "systemctl");
            assert_eq!(inv.args, ["reboot"]);
        }
        other => panic!("{other:?}"),
    }
    let done = Event::Exited { success: true, status: String::new() };
    let step = next(&p, false, step.stage, &done).unwrap();
    assert_eq!(step.say, "");
    assert_eq!(step.stage, Stage::Finished);
}

#[test]
fn no_reboot_leaves_the_reboot_to_the_user() {
    let p = request(probe(Staging::Ram(Ok(memory(10))))).unwrap();
    let step = next(&p, true, run(&p, false).stage, &Event::Armed).unwrap();
    assert_eq!(step.stage, Stage::Finished);
    assert!(matches!(step.work, Work::Nothing));
    assert!(step
        .say
        .ends_with("--no-reboot: the flash runs on your next `reboot`.\n"));
}

#[test]
fn failed_reboot_is_reported() {
    let p = request(probe(Staging::Ram(Ok(memory(10))))).unwrap();
    let done = Event::Exited { success: false, status: "exit status: 1".to_string() };
    let err = next(&p, false, Stage::Rebooting, &done).unwrap_err();
    assert_eq!(err.kind(), ErrorKind::Other);
    assert_eq!(err.message(), "`systemctl reboot` exited with exit status: 1");
}

#[test]
fn reflash_events_out_of_step() {
    let p = request(probe(Staging::Ram(Ok(memory(10))))).unwrap();
    for stage in [Stage::Rebooting, Stage::Finished] {
        assert!(matches!(
            next(&p, false, stage, &Event::Armed),
            Err(OtaError::OutOfStep)
        ));
    }
}

#[test]
fn source_is_cloned_whole() {
    for src in [Source::Ram, staged()] {
        assert_eq!(format!("{:?}", src.clone()), format!("{src:?}"));
    }
}
