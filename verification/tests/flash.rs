use pixel_ota::error::ErrorKind;
use pixel_ota::flash::{fits, flash_image, image_to_partition, Flash, BOOT_CHAIN};

#[test]
fn maps_known_images() {
    assert_eq!(image_to_partition("boot.img"), Some("boot"));
    assert_eq!(
        image_to_partition("vbmeta_system.img"),
        Some("vbmeta_system")
    );
    assert_eq!(image_to_partition("dtbo"), Some("dtbo"));
}

#[test]
fn ignores_unknown_and_rootfs() {
    assert_eq!(image_to_partition("super.img"), None);
    assert_eq!(image_to_partition("rootfs.img"), None);
    assert_eq!(image_to_partition("README.md"), None);
}

#[test]
fn fits_bounds() {
    assert!(fits(100, 100));
    assert!(fits(0, 64));
    assert!(!fits(101, 100));
}

#[test]
fn chain_is_the_documented_one() {
    assert_eq!(
        BOOT_CHAIN,
        [
            "boot",
            "init_boot",
            "vendor_boot",
            "vendor_kernel_boot",
            "dtbo",
            "vbmeta",
            "vbmeta_system",
            "vbmeta_vendor",
            "pvmfw",
        ]
    );
}

#[test]
fn every_chain_image_is_known() {
    for part in BOOT_CHAIN {
        assert_eq!(image_to_partition(part), Some(part));
        assert_eq!(image_to_partition(&format!("{part}.img")), Some(part));
    }
}

#[test]
fn near_misses_are_unknown() {
    assert_eq!(image_to_partition(""), None);
    assert_eq!(image_to_partition(".img"), None);
    assert_eq!(image_to_partition("boot.img.img"), None);
    assert_eq!(image_to_partition("boot.IMG"), None);
    assert_eq!(image_to_partition("Boot.img"), None);
    assert_eq!(image_to_partition("boot_a.img"), None);
    assert_eq!(image_to_partition("img"), None);
    assert_eq!(image_to_partition("boöt.img"), None);
}

#[test]
fn image_that_fits_is_written() {
    let f = flash_image("boot.img", "/dev/x", 100, 100, false).unwrap();
    assert_eq!(f, Flash { bytes: 100, write: true });
}

#[test]
fn dry_run_only_reports_the_size() {
    let f = flash_image("boot.img", "/dev/x", 64, 100, true).unwrap();
    assert_eq!(f, Flash { bytes: 64, write: false });
}

#[test]
fn image_that_does_not_fit_is_refused() {
    for dry_run in [false, true] {
        let err = flash_image("d/boot.img", "/dev/x", 101, 100, dry_run).unwrap_err();
        assert_eq!(err.kind(), ErrorKind::InvalidInput);
        assert_eq!(
            err.message(),
            "d/boot.img (101 bytes) does not fit /dev/x (100 bytes)"
        );
    }
}
