//! Which images are flashed, where to, and whether they fit.
//!
//! Only the boot chain of the inactive slot is ever flashed. The root file system (`super`) is a
//! single partition without slots, and the live root: it is not in the list.

use vstd::prelude::*;
use vstd::string::*;

use crate::error::OtaError;
use crate::error;
use crate::text;

verus! {

/// Slotted partitions of the verified boot chain, in flash order. A slot boots only if the whole
/// chain on it is consistent.
pub const BOOT_CHAIN: [&'static str; 9] = [
    "boot",
    "init_boot",
    "vendor_boot",
    "vendor_kernel_boot",
    "dtbo",
    "vbmeta",
    "vbmeta_system",
    "vbmeta_vendor",
    "pvmfw",
];

/// The name of the partition at position `i` of the boot chain.
pub open spec fn chain(i: int) -> Seq<char> {
    BOOT_CHAIN@[i]@
}

/// Whether a partition belongs to the boot chain.
pub open spec fn in_chain(part: Seq<char>) -> bool {
    exists|i: int| 0 <= i < 9 && #[trigger] chain(i) == part
}

/// A file name without `.img` at its end.
pub open spec fn stem(filename: Seq<char>) -> Seq<char> {
    if filename.len() >= 4 && filename.skip(filename.len() - 4) == ".img"@ {
        filename.take(filename.len() - 4)
    } else {
        filename
    }
}

/// The partition of an image file.
pub open spec fn image_to_partition_spec(filename: Seq<char>) -> Option<Seq<char>> {
    if in_chain(stem(filename)) {
        Some(stem(filename))
    } else {
        None
    }
}

fn stem_of<'a>(filename: &'a str) -> (r: &'a str)
    ensures
        r@ == stem(filename@),
{
    let n: usize = filename.unicode_len();
    if n >= 4 && text::same(filename.substring_char(n - 4, n), ".img") {
        filename.substring_char(0, n - 4)
    } else {
        filename
    }
}

/// Maps an image file name (such as `vendor_boot.img`) to its partition name if that is a known
/// partition of the boot chain. `None` for anything that is not flashed (such as `super.img`).
pub fn image_to_partition(filename: &str) -> (res: Option<&'static str>)
    ensures
        match res {
            Some(part) => image_to_partition_spec(filename@) == Some(part@),
            None => image_to_partition_spec(filename@) is None,
        },
{
    let name: &str = stem_of(filename);
    let mut i: usize = 0;
    while i < 9
        invariant
            i <= 9,
            name@ == stem(filename@),
            forall|j: int| 0 <= j < i ==> #[trigger] chain(j) != name@,
        decreases 9 - i,
    {
        let part: &'static str = BOOT_CHAIN[i];
        assert(part@ == chain(i as int));
        if text::same(part, name) {
            return Some(part);
        }
        i += 1;
    }
    None
}

/// Does `image_len` fit within a partition of `part_len` bytes?
pub fn fits(image_len: u64, part_len: u64) -> (res: bool)
    ensures
        res == (image_len <= part_len),
{
    image_len <= part_len
}

/// What is done with an image that fits.
#[derive(Debug, Clone, Copy, PartialEq, Eq, Structural)]
pub struct Flash {
    /// The number of bytes that are, or would be, written.
    pub bytes: u64,
    /// Whether they are written.
    pub write: bool,
}

/// Decides on writing `image` to the block device at `dev`, from the sizes of both: an image
/// that does not fit is refused, and with `dry_run` nothing is written.
pub fn flash_image(image: &str, dev: &str, image_len: u64, part_len: u64, dry_run: bool) -> (res:
    Result<Flash, OtaError>)
    ensures
        match res {
            Ok(f) => image_len <= part_len && f == (Flash { bytes: image_len, write: !dry_run }),
            Err(e) => image_len > part_len && e@ == (error::ErrorView::ImageTooLarge {
                image: image@,
                image_len,
                dev: dev@,
                part_len,
            }),
        },
{
    if !fits(image_len, part_len) {
        return Err(
            OtaError::ImageTooLarge {
                image: image.to_owned(),
                image_len,
                dev: dev.to_owned(),
                part_len,
            },
        );
    }
    Ok(Flash { bytes: image_len, write: !dry_run })
}

// ---------------------------------------------------------------------------------------
// Laws
// ---------------------------------------------------------------------------------------

/// The lengths of the names in the boot chain, and the characters that tell them apart, from an
/// absolute path and from an image file.
proof fn lemma_chain_names()
    ensures
        chain(0).len() == 4 && chain(0)[0] == 'b',
        chain(1).len() == 9,
        chain(2).len() == 11,
        chain(3).len() == 18,
        chain(4).len() == 4 && chain(4)[0] == 'd',
        chain(5).len() == 6,
        chain(6).len() == 13 && chain(6)[7] == 's',
        chain(7).len() == 13 && chain(7)[7] == 'v',
        chain(8).len() == 5,
        forall|i: int|
            0 <= i < 9 ==> (#[trigger] chain(i)).len() >= 4 && chain(i)[0] != '/' && chain(i).last()
                != 'g',
{
    reveal_strlit("boot");
    reveal_strlit("init_boot");
    reveal_strlit("vendor_boot");
    reveal_strlit("vendor_kernel_boot");
    reveal_strlit("dtbo");
    reveal_strlit("vbmeta");
    reveal_strlit("vbmeta_system");
    reveal_strlit("vbmeta_vendor");
    reveal_strlit("pvmfw");
}

/// The boot chain names each partition once.
pub proof fn law_chain_distinct(i: int, j: int)
    requires
        0 <= i < j < 9,
    ensures
        chain(i) != chain(j),
{
    lemma_chain_names();
}

/// Each partition of the boot chain is found by its name and by its image file.
pub proof fn law_chain_images_known(i: int)
    requires
        0 <= i < 9,
    ensures
        image_to_partition_spec(chain(i)) == Some(chain(i)),
        image_to_partition_spec(chain(i) + ".img"@) == Some(chain(i)),
{
    reveal_strlit(".img");
    let named = chain(i) + ".img"@;
    assert(named.skip(named.len() - 4) =~= ".img"@);
    assert(named.take(named.len() - 4) =~= chain(i));
    lemma_chain_names();
    let tail = chain(i).skip(chain(i).len() - 4);
    assert(tail[3] == chain(i)[chain(i).len() - 1]);
    assert(tail[3] != ".img"@[3]);
}

/// The names in the boot chain are plain: not empty, and not absolute paths.
pub proof fn law_chain_plain(i: int)
    requires
        0 <= i < 9,
    ensures
        chain(i).len() > 0,
        chain(i)[0] != '/',
{
    lemma_chain_names();
}

/// What an image file maps to is a partition of the boot chain.
pub proof fn law_only_chain_flashed(filename: Seq<char>)
    ensures
        image_to_partition_spec(filename) matches Some(part) ==> in_chain(part),
{
}

/// The boot chain is these nine partitions, flashed in this order, and no other.
pub proof fn law_chain_members(part: Seq<char>)
    ensures
        chain(0) == "boot"@ && chain(1) == "init_boot"@ && chain(2) == "vendor_boot"@,
        chain(3) == "vendor_kernel_boot"@ && chain(4) == "dtbo"@ && chain(5) == "vbmeta"@,
        chain(6) == "vbmeta_system"@ && chain(7) == "vbmeta_vendor"@ && chain(8) == "pvmfw"@,
        in_chain(part) <==> part == "boot"@ || part == "init_boot"@ || part == "vendor_boot"@
            || part == "vendor_kernel_boot"@ || part == "dtbo"@ || part == "vbmeta"@ || part
            == "vbmeta_system"@ || part == "vbmeta_vendor"@ || part == "pvmfw"@,
{
    assert(chain(0) == "boot"@ && chain(1) == "init_boot"@ && chain(2) == "vendor_boot"@);
    assert(chain(3) == "vendor_kernel_boot"@ && chain(4) == "dtbo"@ && chain(5) == "vbmeta"@);
    assert(chain(6) == "vbmeta_system"@ && chain(7) == "vbmeta_vendor"@ && chain(8) == "pvmfw"@);
}

/// An image file is named by its partition, with or without `.img`: a file maps to a partition
/// of the boot chain exactly where its name is one of the two.
pub proof fn law_image_named_by_partition(filename: Seq<char>, part: Seq<char>)
    requires
        in_chain(part),
    ensures
        image_to_partition_spec(filename) == Some(part) <==> filename == part || filename == part
            + ".img"@,
{
    reveal_strlit(".img");
    let i = choose|i: int| 0 <= i < 9 && #[trigger] chain(i) == part;
    law_chain_images_known(i);
    if image_to_partition_spec(filename) == Some(part) && filename != part {
        assert(filename =~= filename.take(filename.len() - 4) + filename.skip(filename.len() - 4));
    }
}

} // verus!
