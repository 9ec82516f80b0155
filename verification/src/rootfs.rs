//! In-place reflash of the live, single-slot root file system (`super`).
//!
//! `super` cannot be written while it is the live root. The reflash rides the shutdown initramfs
//! of systemd: if `/run/initramfs/shutdown` exists, systemd pivots into `/run/initramfs` at the
//! end of a reboot and executes it, so that it can unmount the root. A static busybox and a
//! `shutdown` script are staged there; once `super` is unmounted, the script writes the image
//! onto its device node and reboots. There is no rollback.
//!
//! The image comes from one of two places. By default it is copied into `/run/initramfs`, which
//! is memory, so it must fit a budget. A staged image lies on another, persistent partition,
//! which the script mounts.

use vstd::prelude::*;
use vstd::string::*;

use crate::bootctl;
use crate::bootctl::Invocation;
use crate::error;
use crate::error::{Failure, OtaError};
use crate::flash;
use crate::path;
use crate::text;

verus! {

/// Default device of the live root partition.
pub const ROOT_DEV: &'static str = "/dev/disk/by-partlabel/super";

/// Where systemd looks for a `shutdown` program to pivot into at the end of a reboot.
pub const INITRAMFS_DIR: &'static str = "/run/initramfs";

/// Default static busybox, which provides the commands of the script.
pub const BUSYBOX_DEFAULT: &'static str = "/bin/busybox";

/// Name of an image that is held in memory; after the pivot it is `/rootfs.img`.
pub const IMAGE_NAME: &'static str = "rootfs.img";

/// Where the kernel tells the size of the memory.
pub const MEMINFO: &'static str = "/proc/meminfo";

/// Where the kernel tells what is mounted.
pub const MOUNTINFO: &'static str = "/proc/self/mountinfo";

/// The persistent partition that a staged image lies on, known well enough to mount it again
/// where nothing is mounted and no partition has a label.
#[derive(Debug)]
pub struct Backing {
    /// Canonical device node, such as `/dev/sda31`.
    pub node: String,
    /// File system type, such as `ext4`.
    pub fstype: String,
    /// The path of the image within that file system, such as `/rootfs.img`.
    pub fs_path: String,
}

/// Where the image comes from after the pivot.
#[derive(Debug)]
pub enum Source {
    /// Copied into the initramfs; read from `/rootfs.img` after the pivot.
    Ram,
    /// Read from a persistent partition that the script mounts.
    Staged(Backing),
}

/// A backing partition, with its texts as sequences of characters.
pub struct BackingView {
    pub node: Seq<char>,
    pub fstype: Seq<char>,
    pub fs_path: Seq<char>,
}

/// A source, with its texts as sequences of characters.
pub enum SourceView {
    Ram,
    Staged(BackingView),
}

impl View for Backing {
    type V = BackingView;

    open spec fn view(&self) -> BackingView {
        BackingView { node: self.node@, fstype: self.fstype@, fs_path: self.fs_path@ }
    }
}

impl View for Source {
    type V = SourceView;

    open spec fn view(&self) -> SourceView {
        match self {
            Source::Ram => SourceView::Ram,
            Source::Staged(b) => SourceView::Staged(b@),
        }
    }
}

impl Clone for Backing {
    fn clone(&self) -> (b: Self)
        ensures
            b == *self,
    {
        Backing {
            node: self.node.clone(),
            fstype: self.fstype.clone(),
            fs_path: self.fs_path.clone(),
        }
    }
}

impl Clone for Source {
    fn clone(&self) -> (s: Self)
        ensures
            s == *self,
    {
        match self {
            Source::Ram => Source::Ram,
            Source::Staged(b) => Source::Staged(b.clone()),
        }
    }
}

// ---------------------------------------------------------------------------------------
// Memory
// ---------------------------------------------------------------------------------------

/// The size that a line of the memory report gives, in kB, if it is the line of the total and
/// starts with a number.
pub open spec fn kb_in(line: Seq<char>) -> Option<u64> {
    if text::occurs_at(line, "MemTotal:"@, 0) {
        let words = text::words_spec(line.skip(9));
        if words.len() > 0 {
            text::parse_u64_spec(words[0])
        } else {
            None
        }
    } else {
        None
    }
}

/// The size that the first of some lines to give one gives.
pub open spec fn first_kb(lines: Seq<Seq<char>>) -> Option<u64>
    decreases lines.len(),
{
    if lines.len() == 0 {
        None
    } else {
        match kb_in(lines[0]) {
            Some(kb) => Some(kb),
            None => first_kb(lines.drop_first()),
        }
    }
}

/// The memory size that a memory report gives, in kB.
pub open spec fn mem_total_kb_spec(meminfo: Seq<char>) -> Option<u64> {
    first_kb(text::lines_spec(meminfo))
}

fn kb_of(line: &str) -> (res: Option<u64>)
    ensures
        res == kb_in(line@),
{
    proof {
        reveal_strlit("MemTotal:");
    }
    let cs: Vec<char> = text::chars_of(line);
    let key: Vec<char> = text::chars_of("MemTotal:");
    if !text::stands_at(&cs, &key, 0) {
        return None;
    }
    let n: usize = cs.len();
    let rest: &str = line.substring_char(9, n);
    assert(rest@ =~= line@.skip(9));
    let words: Vec<&str> = text::words(rest);
    assert(text::views(words@).len() == words@.len());
    if words.len() > 0 {
        assert(text::views(words@)[0] == words@[0]@);
        text::parse_u64(words[0])
    } else {
        None
    }
}

/// Total physical memory in kB, from the text of `/proc/meminfo`.
pub fn mem_total_kb(meminfo: &str) -> (res: Option<u64>)
    ensures
        res == mem_total_kb_spec(meminfo@),
{
    let lines: Vec<&str> = text::lines(meminfo);
    let ghost all = text::views(lines@);
    let mut i: usize = 0;
    assert(all.skip(0) =~= all);
    while i < lines.len()
        invariant
            i <= lines.len(),
            all == text::views(lines@),
            all == text::lines_spec(meminfo@),
            first_kb(all) == first_kb(all.skip(i as int)),
        decreases lines.len() - i,
    {
        assert(all.skip(i as int)[0] == lines@[i as int]@);
        assert(all.skip(i as int).drop_first() =~= all.skip(i + 1));
        if let Some(kb) = kb_of(lines[i]) {
            return Some(kb);
        }
        i += 1;
    }
    None
}

/// Total physical memory in bytes, from the text of `/proc/meminfo`, which gives it in kB.
pub fn mem_total_bytes(meminfo: &str) -> (res: Result<u64, OtaError>)
    requires
        mem_total_kb_spec(meminfo@) matches Some(kb) ==> kb * 1024 <= u64::MAX,
    ensures
        match mem_total_kb_spec(meminfo@) {
            Some(kb) => res matches Ok(bytes) && bytes == kb * 1024,
            None => res == Err::<u64, OtaError>(OtaError::MemTotalMissing),
        },
{
    match mem_total_kb(meminfo) {
        Some(kb) => Ok(kb * 1024),
        None => Err(OtaError::MemTotalMissing),
    }
}

/// `pct` percent of the memory.
pub open spec fn ram_budget_spec(mem_total: u64, pct: u8) -> int {
    (mem_total as int / 100) * pct
}

/// How much memory an image may take: `pct` percent of the total. The image is held in memory
/// beside the running system, so this stays well clear of the total.
pub fn ram_budget(mem_total: u64, pct: u8) -> (budget: u64)
    requires
        ram_budget_spec(mem_total, pct) <= u64::MAX,
    ensures
        budget == ram_budget_spec(mem_total, pct),
{
    assert((mem_total as int / 100) * pct >= 0) by (nonlinear_arith);
    mem_total / 100 * pct as u64
}

// ---------------------------------------------------------------------------------------
// Mounts
// ---------------------------------------------------------------------------------------

/// An entry of the mount table.
pub struct Mount {
    /// What part of the file system is mounted.
    pub root: Seq<char>,
    /// Where it is mounted.
    pub mountpoint: Seq<char>,
    /// The file system type.
    pub fstype: Seq<char>,
    /// The device.
    pub source: Seq<char>,
}

/// The character that the mount table writes as a backslash and the octal digits `a`, `b` and
/// `c`.
pub open spec fn escape(a: char, b: char, c: char) -> Option<char> {
    if a == '0' && b == '4' && c == '0' {
        Some(' ')
    } else if a == '0' && b == '1' && c == '1' {
        Some('\t')
    } else if a == '0' && b == '1' && c == '2' {
        Some('\n')
    } else if a == '1' && b == '3' && c == '4' {
        Some('\\')
    } else {
        None
    }
}

/// Whether a text starts with an escaped character.
pub open spec fn starts_escaped(w: Seq<char>) -> bool {
    w.len() >= 4 && w[0] == '\\' && escape(w[1], w[2], w[3]) is Some
}

/// A word of the mount table as it is meant: `\040`, `\011`, `\012` and `\134` stand for a
/// space, a tab, a line feed and a backslash.
pub open spec fn unescaped(w: Seq<char>) -> Seq<char>
    decreases w.len(),
{
    if w.len() == 0 {
        seq![]
    } else if starts_escaped(w) {
        seq![escape(w[1], w[2], w[3])->0] + unescaped(w.skip(4))
    } else {
        seq![w[0]] + unescaped(w.skip(1))
    }
}

/// What a character is written as in the mount table.
pub open spec fn escaped_char(c: char) -> Seq<char> {
    if c == ' ' {
        seq!['\\', '0', '4', '0']
    } else if c == '\t' {
        seq!['\\', '0', '1', '1']
    } else if c == '\n' {
        seq!['\\', '0', '1', '2']
    } else if c == '\\' {
        seq!['\\', '1', '3', '4']
    } else {
        seq![c]
    }
}

/// What a text is written as in the mount table.
pub open spec fn escaped(s: Seq<char>) -> Seq<char>
    decreases s.len(),
{
    if s.len() == 0 {
        seq![]
    } else {
        escaped_char(s[0]) + escaped(s.skip(1))
    }
}

/// The entry in a line of the mount table:
/// `<id> <pid> <maj:min> <root> <mountpoint> <opts> <tags...> - <fstype> <source> <super>`.
pub open spec fn mount_in(line: Seq<char>) -> Option<Mount> {
    match text::halves_spec(line) {
        None => None,
        Some((left, right)) => {
            let l = text::words_spec(left);
            let r = text::words_spec(right);
            if l.len() >= 5 && r.len() >= 2 {
                Some(
                    Mount {
                        root: unescaped(l[3]),
                        mountpoint: unescaped(l[4]),
                        fstype: r[0],
                        source: unescaped(r[1]),
                    },
                )
            } else {
                None
            }
        },
    }
}

/// The length of a text in bytes.
pub open spec fn byte_len(s: Seq<char>) -> nat {
    vstd::utf8::encode_utf8(s).len()
}

/// The length of the mount point in line `i`, in bytes.
pub open spec fn point_len(lines: Seq<Seq<char>>, i: int) -> nat {
    byte_len((mount_in(lines[i])->0).mountpoint)
}

/// Line `i` of the mount table mounts something that `target` lies under.
pub open spec fn covers(lines: Seq<Seq<char>>, target: Seq<char>, i: int) -> bool {
    &&& 0 <= i < lines.len()
    &&& mount_in(lines[i]) matches Some(m) && path::is_under(target, m.mountpoint)
}

/// Line `i` mounts what holds `target`: no mount point that `target` lies under is longer, and
/// none as long stands in a later line.
pub open spec fn backs(lines: Seq<Seq<char>>, target: Seq<char>, i: int) -> bool {
    &&& covers(lines, target, i)
    &&& forall|j: int| #[trigger]
        covers(lines, target, j) ==> point_len(lines, j) <= point_len(lines, i) && (j > i
            ==> point_len(lines, j) < point_len(lines, i))
}

/// The path of `target` in a mounted file system.
pub open spec fn fs_path_spec(m: Mount, target: Seq<char>) -> Seq<char> {
    path::join_spec(m.root, path::past(target, m.mountpoint))
}

/// The device and the file system type of the mount in `lines` that holds `target`, and the path
/// of `target` in that file system.
pub open spec fn backing_among(lines: Seq<Seq<char>>, target: Seq<char>) -> Option<
    (Seq<char>, Seq<char>, Seq<char>),
> {
    if exists|i: int| backs(lines, target, i) {
        let m = mount_in(lines[choose|i: int| backs(lines, target, i)])->0;
        Some((m.source, m.fstype, fs_path_spec(m, target)))
    } else {
        None
    }
}

/// What the mount table says of `target`.
pub open spec fn backing_spec(mountinfo: Seq<char>, target: Seq<char>) -> Option<
    (Seq<char>, Seq<char>, Seq<char>),
> {
    backing_among(text::lines_spec(mountinfo), target)
}

/// At most one line holds a target.
pub proof fn law_backing_is_unique(lines: Seq<Seq<char>>, target: Seq<char>, i: int, j: int)
    requires
        backs(lines, target, i),
        backs(lines, target, j),
    ensures
        i == j,
{
    assert(covers(lines, target, i) && covers(lines, target, j));
}

/// A word that is not empty does not mean an empty text.
proof fn lemma_unescaped_some(w: Seq<char>)
    requires
        w.len() > 0,
    ensures
        unescaped(w).len() > 0,
{
}

fn escape_of(w: &Vec<char>, i: usize) -> (res: Option<&'static str>)
    requires
        i < w.len(),
    ensures
        match res {
            Some(c) => starts_escaped(w@.skip(i as int)) && c@ == seq![
                escape(w@[i + 1], w@[i + 2], w@[i + 3])->0,
            ],
            None => !starts_escaped(w@.skip(i as int)),
        },
{
    proof {
        reveal_strlit(" ");
        reveal_strlit("\t");
        reveal_strlit("\n");
        reveal_strlit("\\");
        assert(" "@ =~= seq![' ']);
        assert("\t"@ =~= seq!['\t']);
        assert("\n"@ =~= seq!['\n']);
        assert("\\"@ =~= seq!['\\']);
    }
    if w.len() - i < 4 || w[i] != '\\' {
        return None;
    }
    let (a, b, c): (char, char, char) = (w[i + 1], w[i + 2], w[i + 3]);
    if a == '0' && b == '4' && c == '0' {
        Some(" ")
    } else if a == '0' && b == '1' && c == '1' {
        Some("\t")
    } else if a == '0' && b == '1' && c == '2' {
        Some("\n")
    } else if a == '1' && b == '3' && c == '4' {
        Some("\\")
    } else {
        None
    }
}

/// Reads a word of the mount table as it is meant.
pub fn unescape(w: &str) -> (r: String)
    ensures
        r@ == unescaped(w@),
{
    let cs: Vec<char> = text::chars_of(w);
    let mut r: String = String::new();
    let mut i: usize = 0;
    assert(w@.skip(0) =~= w@);
    assert(r@ + unescaped(w@.skip(0)) =~= unescaped(w@));
    while i < cs.len()
        invariant
            cs@ == w@,
            i <= cs.len(),
            r@ + unescaped(w@.skip(i as int)) == unescaped(w@),
        decreases cs.len() - i,
    {
        let ghost before = r@;
        let ghost rest = w@.skip(i as int);
        match escape_of(&cs, i) {
            Some(c) => {
                r.append(c);
                proof {
                    assert(rest.skip(4) =~= w@.skip(i + 4));
                    assert(before + (c@ + unescaped(rest.skip(4))) =~= r@ + unescaped(
                        w@.skip(i + 4),
                    ));
                }
                i += 4;
            },
            None => {
                let c: &str = w.substring_char(i, i + 1);
                r.append(c);
                proof {
                    assert(c@ =~= seq![rest[0]]);
                    assert(rest.skip(1) =~= w@.skip(i + 1));
                    assert(before + (c@ + unescaped(rest.skip(1))) =~= r@ + unescaped(
                        w@.skip(i + 1),
                    ));
                }
                i += 1;
            },
        }
    }
    assert(r@ =~= unescaped(w@));
    r
}

/// An entry of the mount table, as strings.
struct Entry {
    root: String,
    mountpoint: String,
    fstype: String,
    source: String,
}

impl Entry {
    spec fn is(self, m: Mount) -> bool {
        &&& self.root@ == m.root
        &&& self.mountpoint@ == m.mountpoint
        &&& self.fstype@ == m.fstype
        &&& self.source@ == m.source
    }
}

fn entry_of(line: &str) -> (res: Option<Entry>)
    ensures
        match res {
            Some(e) => mount_in(line@) matches Some(m) && e.is(m) && m.mountpoint.len() > 0,
            None => mount_in(line@) is None,
        },
{
    match text::halves(line) {
        None => None,
        Some((left, right)) => {
            let l: Vec<&str> = text::words(left);
            let r: Vec<&str> = text::words(right);
            proof {
                assert(text::views(l@).len() == l@.len());
                assert(text::views(r@).len() == r@.len());
            }
            if l.len() < 5 || r.len() < 2 {
                None
            } else {
                proof {
                    assert(text::views(l@)[3] == l@[3]@);
                    assert(text::views(l@)[4] == l@[4]@);
                    assert(text::views(r@)[0] == r@[0]@);
                    assert(text::views(r@)[1] == r@[1]@);
                    lemma_unescaped_some(l@[4]@);
                }
                Some(
                    Entry {
                        root: unescape(l[3]),
                        mountpoint: unescape(l[4]),
                        fstype: r[0].to_owned(),
                        source: unescape(r[1]),
                    },
                )
            }
        },
    }
}

/// Finds the partition that holds `target` in the text of `/proc/self/mountinfo`: the mount whose
/// mount point is the longest prefix of `target`. Gives its device, its file system type, and the
/// path of `target` in it.
pub fn backing_from_mountinfo(mountinfo: &str, target: &str) -> (res: Result<
    (String, String, String),
    OtaError,
>)
    ensures
        match res {
            Ok((source, fstype, fs_path)) => backing_spec(mountinfo@, target@) == Some(
                (source@, fstype@, fs_path@),
            ),
            Err(e) => {
                &&& backing_spec(mountinfo@, target@) is None
                &&& forall|i: int| !#[trigger] covers(text::lines_spec(mountinfo@), target@, i)
                &&& e@ == (error::ErrorView::NoBackingMount { target: target@ })
            },
        },
{
    let lines: Vec<&str> = text::lines(mountinfo);
    let ghost all = text::views(lines@);
    let mut best: Option<Entry> = None;
    let ghost mut at: int = 0;
    let mut i: usize = 0;
    while i < lines.len()
        invariant
            i <= lines.len(),
            all == text::views(lines@),
            match best {
                None => forall|j: int| 0 <= j < i ==> !#[trigger] covers(all, target@, j),
                Some(b) => {
                    &&& 0 <= at < i
                    &&& covers(all, target@, at)
                    &&& b.is(mount_in(all[at])->0)
                    &&& b.mountpoint@.len() > 0
                    &&& forall|j: int|
                        0 <= j < i && #[trigger] covers(all, target@, j) ==> point_len(all, j)
                            <= point_len(all, at) && (j > at ==> point_len(all, j) < point_len(
                            all,
                            at,
                        ))
                },
            },
        decreases lines.len() - i,
    {
        assert(all[i as int] == lines@[i as int]@);
        if let Some(e) = entry_of(lines[i]) {
            if path::starts_with(target, e.mountpoint.as_str()) {
                assert(covers(all, target@, i as int));
                let longest: bool = match &best {
                    None => true,
                    Some(b) => e.mountpoint.as_str().as_bytes().len()
                        >= b.mountpoint.as_str().as_bytes().len(),
                };
                if longest {
                    best = Some(e);
                    proof {
                        at = i as int;
                    }
                }
            }
        }
        i += 1;
    }
    match best {
        None => Err(OtaError::NoBackingMount { target: target.to_owned() }),
        Some(b) => {
            proof {
                assert(backs(all, target@, at));
                law_backing_is_unique(all, target@, at, choose|i: int| backs(all, target@, i));
            }
            let rel: String = path::strip(target, b.mountpoint.as_str());
            let fs_path: String = path::join(b.root.as_str(), rel.as_str());
            Ok((b.source, b.fstype, fs_path))
        },
    }
}

/// The backing partition of a staged image, from what the mount table says of it: its node is
/// the canonical path of the device, or the device as listed where that has none.
pub fn backing_mount(found: (String, String, String), canonical: Option<String>) -> (b: Backing)
    ensures
        b@ == (BackingView {
            node: match canonical {
                Some(node) => node@,
                None => found.0@,
            },
            fstype: found.1@,
            fs_path: found.2@,
        }),
{
    let (source, fstype, fs_path) = found;
    let node: String = match canonical {
        Some(node) => node,
        None => source,
    };
    Backing { node, fstype, fs_path }
}

// ---------------------------------------------------------------------------------------
// The script
// ---------------------------------------------------------------------------------------

/// The file that the script reads the image from.
pub open spec fn infile(src: SourceView) -> Seq<char> {
    match src {
        SourceView::Ram => "/"@ + IMAGE_NAME@,
        SourceView::Staged(b) => "/stage"@ + b.fs_path,
    }
}

/// The lines up to the release of the old root.
pub open spec fn opening(real_node: Seq<char>) -> Seq<Seq<char>> {
    seq![
        "#!/busybox sh"@,
        "# pixel-ota: flash the live rootfs after systemd pivoted into the shutdown initramfs."@,
        "BB=/busybox"@,
        "$BB mount -t devtmpfs dev /dev 2>/dev/null"@,
        "$BB mount -t proc proc /proc 2>/dev/null"@,
        "# release the old root tree so "@ + real_node + " is no longer busy, then flash it."@,
        "$BB umount -r -l /oldroot 2>/dev/null"@,
    ]
}

/// The lines that make the image readable.
pub open spec fn preparation(src: SourceView) -> Seq<Seq<char>> {
    match src {
        SourceView::Ram => seq![],
        SourceView::Staged(b) => seq![
            "$BB mkdir -p /stage"@,
            "$BB mount -t "@ + b.fstype + " -o ro "@ + b.node + " /stage"@,
        ],
    }
}

/// The line that writes the image.
pub open spec fn copying(real_node: Seq<char>, src: SourceView) -> Seq<char> {
    "$BB dd if="@ + infile(src) + " of="@ + real_node + " bs=4M conv=fsync"@
}

/// The lines that write the image and tell the kernel log of it.
pub open spec fn flashing(real_node: Seq<char>, src: SourceView) -> Seq<Seq<char>> {
    seq![
        copying(real_node, src),
        "RC=$?"@,
        "$BB sync"@,
        "echo \"pixel-ota flash-rootfs: dd rc=$RC\" > /dev/kmsg 2>/dev/null"@,
    ]
}

/// The lines that leave a log on the staging partition. A log in memory would not survive.
pub open spec fn logging(src: SourceView) -> Seq<Seq<char>> {
    match src {
        SourceView::Ram => seq![],
        SourceView::Staged(_) => seq![
            "$BB mount -o remount,rw /stage 2>/dev/null"@,
            "echo \"pixel-ota flash-rootfs: dd rc=$RC ($($BB date 2>/dev/null))\" >> /stage/pixel-ota-flash.log 2>/dev/null"@,
            "$BB umount /stage 2>/dev/null"@,
        ],
    }
}

/// The lines that reboot.
pub open spec fn closing() -> Seq<Seq<char>> {
    seq!["$BB sleep 2"@, "$BB reboot -f"@]
}

/// The lines of the script.
pub open spec fn script_lines(real_node: Seq<char>, src: SourceView) -> Seq<Seq<char>> {
    opening(real_node) + preparation(src) + flashing(real_node, src) + logging(src) + closing()
}

/// The script that flashes `real_node`.
pub open spec fn shutdown_script_spec(real_node: Seq<char>, src: SourceView) -> Seq<char> {
    text::unlines(script_lines(real_node, src))
}

fn script_line_list(real_node: &str, src: &Source) -> (v: Vec<String>)
    ensures
        text::texts(v@) == script_lines(real_node@, src@),
{
    let mut v: Vec<String> = Vec::new();
    v.push("#!/busybox sh".to_owned());
    v.push(
        "# pixel-ota: flash the live rootfs after systemd pivoted into the shutdown initramfs.".to_owned(),
    );
    v.push("BB=/busybox".to_owned());
    v.push("$BB mount -t devtmpfs dev /dev 2>/dev/null".to_owned());
    v.push("$BB mount -t proc proc /proc 2>/dev/null".to_owned());
    let mut release: String = "# release the old root tree so ".to_owned();
    release.append(real_node);
    release.append(" is no longer busy, then flash it.");
    v.push(release);
    v.push("$BB umount -r -l /oldroot 2>/dev/null".to_owned());
    assert(text::texts(v@) =~= opening(real_node@));
    let mut from: String;
    match src {
        Source::Ram => {
            from = "/".to_owned();
            from.append(IMAGE_NAME);
        },
        Source::Staged(b) => {
            v.push("$BB mkdir -p /stage".to_owned());
            let mut mount: String = "$BB mount -t ".to_owned();
            mount.append(b.fstype.as_str());
            mount.append(" -o ro ");
            mount.append(b.node.as_str());
            mount.append(" /stage");
            v.push(mount);
            from = "/stage".to_owned();
            from.append(b.fs_path.as_str());
        },
    }
    assert(text::texts(v@) =~= opening(real_node@) + preparation(src@));
    let mut dd: String = "$BB dd if=".to_owned();
    dd.append(from.as_str());
    dd.append(" of=");
    dd.append(real_node);
    dd.append(" bs=4M conv=fsync");
    v.push(dd);
    v.push("RC=$?".to_owned());
    v.push("$BB sync".to_owned());
    v.push("echo \"pixel-ota flash-rootfs: dd rc=$RC\" > /dev/kmsg 2>/dev/null".to_owned());
    assert(text::texts(v@) =~= opening(real_node@) + preparation(src@) + flashing(
        real_node@,
        src@,
    ));
    match src {
        Source::Ram => {},
        Source::Staged(_) => {
            v.push("$BB mount -o remount,rw /stage 2>/dev/null".to_owned());
            v.push(
                "echo \"pixel-ota flash-rootfs: dd rc=$RC ($($BB date 2>/dev/null))\" >> /stage/pixel-ota-flash.log 2>/dev/null".to_owned(),
            );
            v.push("$BB umount /stage 2>/dev/null".to_owned());
        },
    }
    assert(text::texts(v@) =~= opening(real_node@) + preparation(src@) + flashing(
        real_node@,
        src@,
    ) + logging(src@));
    v.push("$BB sleep 2".to_owned());
    v.push("$BB reboot -f".to_owned());
    assert(text::texts(v@) =~= script_lines(real_node@, src@));
    v
}

/// The `shutdown` script. It runs in the initramfs, after the pivot: `/busybox` is the staged
/// program, `/oldroot` the old root. It releases the old root, writes the image to `real_node`,
/// and reboots.
pub fn shutdown_script(real_node: &str, src: &Source) -> (r: String)
    ensures
        r@ == shutdown_script_spec(real_node@, src@),
{
    let lines: Vec<String> = script_line_list(real_node, src);
    let ghost all = text::texts(lines@);
    let mut r: String = String::new();
    let mut i: usize = 0;
    assert(all.take(0) =~= Seq::<Seq<char>>::empty());
    while i < lines.len()
        invariant
            i <= lines.len(),
            all == text::texts(lines@),
            r@ == text::unlines(all.take(i as int)),
        decreases lines.len() - i,
    {
        assert(all.take(i + 1).drop_last() =~= all.take(i as int));
        assert(all.take(i + 1).last() == lines@[i as int]@);
        r.append(lines[i].as_str());
        r.append("\n");
        i += 1;
    }
    assert(all.take(i as int) =~= all);
    r
}

// ---------------------------------------------------------------------------------------
// The plan
// ---------------------------------------------------------------------------------------

/// A reflash that may go ahead.
#[derive(Debug)]
pub struct Plan {
    /// The image.
    pub image: String,
    /// Its size in bytes.
    pub image_len: u64,
    /// The root partition, as it was asked for.
    pub root_dev: String,
    /// The device node of the root partition.
    pub real_node: String,
    /// The busybox to stage.
    pub busybox: String,
    /// Where the image comes from.
    pub source: Source,
    /// The memory budget; 0 for a staged image, which takes no memory.
    pub budget: u64,
}

/// A plan, with its texts as sequences of characters.
pub struct PlanView {
    pub image: Seq<char>,
    pub image_len: u64,
    pub root_dev: Seq<char>,
    pub real_node: Seq<char>,
    pub busybox: Seq<char>,
    pub source: SourceView,
    pub budget: u64,
}

impl View for Plan {
    type V = PlanView;

    open spec fn view(&self) -> PlanView {
        PlanView {
            image: self.image@,
            image_len: self.image_len,
            root_dev: self.root_dev@,
            real_node: self.real_node@,
            busybox: self.busybox@,
            source: self.source@,
            budget: self.budget,
        }
    }
}

/// What was found out about the place of the image.
#[derive(Debug)]
pub enum Staging<E> {
    /// The image is to be held in memory; the text of `/proc/meminfo`.
    Ram(Result<String, E>),
    /// The image is staged; the partition that it lies on.
    Staged(Result<Backing, Failure<E>>),
}

/// What was found out about a request. An `Err` is what the system reported instead.
#[derive(Debug)]
pub struct Probe<E> {
    /// The size of the image in bytes.
    pub image_len: Result<u64, E>,
    /// The size of the root partition in bytes.
    pub part_len: Result<u64, E>,
    /// Whether there is a busybox.
    pub busybox_present: bool,
    /// The device node of the root partition.
    pub real_node: Result<String, E>,
    /// The place of the image.
    pub staging: Staging<E>,
}

/// Whether all that is asked of any request holds: the image and the root partition can be
/// measured, the image fits, there is a busybox, and the device node is known.
pub open spec fn sound<E>(probe: Probe<E>) -> bool {
    &&& probe.image_len is Ok
    &&& probe.part_len is Ok
    &&& probe.image_len->Ok_0 <= probe.part_len->Ok_0
    &&& probe.busybox_present
    &&& probe.real_node is Ok
}

/// The memory size that a memory report gives, in bytes.
pub open spec fn total_spec(meminfo: Seq<char>) -> int {
    mem_total_kb_spec(meminfo)->0 * 1024
}

/// Whether the memory size and the memory budget, where they are needed and known, can be written
/// in 64 bits.
pub open spec fn budget_fits<E>(staging: Staging<E>, pct: u8) -> bool {
    match staging {
        Staging::Ram(Ok(meminfo)) => mem_total_kb_spec(meminfo@) is Some ==> total_spec(meminfo@)
            <= u64::MAX && ram_budget_spec(total_spec(meminfo@) as u64, pct) <= u64::MAX,
        _ => true,
    }
}

/// Whether a request gets as far as the memory budget and finds it too large for 64 bits. No plan
/// can be made of such a request.
pub fn budget_overflows<E>(probe: &Probe<E>, ram_budget_pct: u8) -> (res: bool)
    ensures
        res == (sound(*probe) && !budget_fits(probe.staging, ram_budget_pct)),
{
    match (&probe.image_len, &probe.part_len, &probe.real_node, &probe.staging) {
        (Ok(image_len), Ok(part_len), Ok(_), Staging::Ram(Ok(meminfo))) => {
            if !flash::fits(*image_len, *part_len) || !probe.busybox_present {
                return false;
            }
            match mem_total_kb(meminfo.as_str()) {
                None => false,
                Some(kb) => match kb.checked_mul(1024) {
                    None => true,
                    Some(total) => (total / 100).checked_mul(ram_budget_pct as u64).is_none(),
                },
            }
        },
        _ => false,
    }
}

/// Why a request that is not sound fails: the first thing that is amiss.
pub open spec fn unsound_because<E>(
    root_dev: Seq<char>,
    busybox: Seq<char>,
    probe: Probe<E>,
) -> error::FailureView<E> {
    match (probe.image_len, probe.part_len, probe.real_node) {
        (Err(e), _, _) => error::FailureView::Io(e),
        (Ok(_), Err(e), _) => error::FailureView::Io(e),
        (Ok(image_len), Ok(part_len), node) => if image_len > part_len {
            error::FailureView::Ota(
                error::ErrorView::RootfsTooLarge { image_len, root_dev, part_len },
            )
        } else if !probe.busybox_present {
            error::FailureView::Ota(error::ErrorView::BusyboxMissing { busybox })
        } else {
            error::FailureView::Io(node->Err_0)
        },
    }
}

/// The outcome of a request: a plan, or why there is none.
pub open spec fn plan_spec<E>(
    image: Seq<char>,
    root_dev: Seq<char>,
    busybox: Seq<char>,
    pct: u8,
    probe: Probe<E>,
) -> Result<PlanView, error::FailureView<E>> {
    let image_len = probe.image_len->Ok_0;
    let real_node = probe.real_node->Ok_0@;
    if !sound(probe) {
        Err(unsound_because(root_dev, busybox, probe))
    } else {
        match probe.staging {
            Staging::Staged(Err(f)) => Err(f@),
            Staging::Staged(Ok(b)) => if path::components(b.node@) == path::components(real_node) {
                Err(
                    error::FailureView::Ota(error::ErrorView::StagedOnTarget { node: real_node }),
                )
            } else {
                Ok(
                    PlanView {
                        image,
                        image_len,
                        root_dev,
                        real_node,
                        busybox,
                        source: SourceView::Staged(b@),
                        budget: 0,
                    },
                )
            },
            Staging::Ram(Err(e)) => Err(error::FailureView::Io(e)),
            Staging::Ram(Ok(meminfo)) => {
                let budget = ram_budget_spec(total_spec(meminfo@) as u64, pct) as u64;
                if mem_total_kb_spec(meminfo@) is None {
                    Err(error::FailureView::Ota(error::ErrorView::MemTotalMissing))
                } else if image_len > budget {
                    Err(
                        error::FailureView::Ota(
                            error::ErrorView::OverBudget { image_len, budget, pct },
                        ),
                    )
                } else {
                    Ok(
                        PlanView {
                            image,
                            image_len,
                            root_dev,
                            real_node,
                            busybox,
                            source: SourceView::Ram,
                            budget,
                        },
                    )
                }
            },
        }
    }
}

/// Validates a request and works out all that the arming needs, from what was found out about
/// it, without touching the system.
pub fn plan<E>(
    image: &str,
    root_dev: &str,
    busybox: &str,
    ram_budget_pct: u8,
    probe: Probe<E>,
) -> (res: Result<Plan, Failure<E>>)
    requires
        sound(probe) ==> budget_fits(probe.staging, ram_budget_pct),
    ensures
        match (res, plan_spec(image@, root_dev@, busybox@, ram_budget_pct, probe)) {
            (Ok(p), Ok(v)) => p@ == v,
            (Err(f), Err(v)) => f@ == v,
            _ => false,
        },
{
    let image_len: u64 = match probe.image_len {
        Ok(len) => len,
        Err(e) => return Err(Failure::Io(e)),
    };
    let part_len: u64 = match probe.part_len {
        Ok(len) => len,
        Err(e) => return Err(Failure::Io(e)),
    };
    if !flash::fits(image_len, part_len) {
        return Err(
            Failure::Ota(
                OtaError::RootfsTooLarge { image_len, root_dev: root_dev.to_owned(), part_len },
            ),
        );
    }
    if !probe.busybox_present {
        return Err(Failure::Ota(OtaError::BusyboxMissing { busybox: busybox.to_owned() }));
    }
    let real_node: String = match probe.real_node {
        Ok(node) => node,
        Err(e) => return Err(Failure::Io(e)),
    };
    let source: Source;
    let budget: u64;
    match probe.staging {
        Staging::Staged(backing) => {
            let b: Backing = match backing {
                Ok(b) => b,
                Err(f) => return Err(f),
            };
            if path::equal(b.node.as_str(), real_node.as_str()) {
                return Err(Failure::Ota(OtaError::StagedOnTarget { node: real_node }));
            }
            source = Source::Staged(b);
            budget = 0;
        },
        Staging::Ram(report) => {
            let meminfo: String = match report {
                Ok(meminfo) => meminfo,
                Err(e) => return Err(Failure::Io(e)),
            };
            let total: u64 = match mem_total_bytes(meminfo.as_str()) {
                Ok(total) => total,
                Err(e) => return Err(Failure::Ota(e)),
            };
            budget = ram_budget(total, ram_budget_pct);
            if image_len > budget {
                return Err(
                    Failure::Ota(OtaError::OverBudget { image_len, budget, pct: ram_budget_pct }),
                );
            }
            source = Source::Ram;
        },
    }
    Ok(
        Plan {
            image: image.to_owned(),
            image_len,
            root_dev: root_dev.to_owned(),
            real_node,
            busybox: busybox.to_owned(),
            source,
            budget,
        },
    )
}

// ---------------------------------------------------------------------------------------
// Arming
// ---------------------------------------------------------------------------------------

/// A change to the file system.
#[derive(Debug)]
pub enum FileOp {
    /// Create a directory, and those above it, where missing.
    MakeDirs { path: String },
    /// Copy a file.
    Copy { from: String, to: String },
    /// Set the permission bits of a file.
    SetMode { path: String, mode: u32 },
    /// Write a file.
    Write { path: String, text: String },
}

/// A change, with its texts as sequences of characters.
pub enum FileOpView {
    MakeDirs { path: Seq<char> },
    Copy { from: Seq<char>, to: Seq<char> },
    SetMode { path: Seq<char>, mode: u32 },
    Write { path: Seq<char>, text: Seq<char> },
}

impl View for FileOp {
    type V = FileOpView;

    open spec fn view(&self) -> FileOpView {
        match self {
            FileOp::MakeDirs { path } => FileOpView::MakeDirs { path: path@ },
            FileOp::Copy { from, to } => FileOpView::Copy { from: from@, to: to@ },
            FileOp::SetMode { path, mode } => FileOpView::SetMode { path: path@, mode: *mode },
            FileOp::Write { path, text } => FileOpView::Write { path: path@, text: text@ },
        }
    }
}

/// The contents of a list of changes.
pub open spec fn ops_view(v: Seq<FileOp>) -> Seq<FileOpView> {
    Seq::new(v.len(), |i: int| v[i]@)
}

/// A file in the initramfs.
pub open spec fn staged_at(name: Seq<char>) -> Seq<char> {
    path::join_spec(INITRAMFS_DIR@, name)
}

/// Readable by all, writable by its owner, executable by all.
pub const EXECUTABLE: u32 = 0o755;

/// The changes that arm a plan: the busybox, the image if it is held in memory, and the script.
pub open spec fn arm_spec(p: PlanView) -> Seq<FileOpView> {
    seq![
        FileOpView::MakeDirs { path: INITRAMFS_DIR@ },
        FileOpView::Copy { from: p.busybox, to: staged_at("busybox"@) },
        FileOpView::SetMode { path: staged_at("busybox"@), mode: EXECUTABLE },
    ] + (if p.source is Ram {
        seq![FileOpView::Copy { from: p.image, to: staged_at(IMAGE_NAME@) }]
    } else {
        seq![]
    }) + seq![
        FileOpView::Write {
            path: staged_at("shutdown"@),
            text: shutdown_script_spec(p.real_node, p.source),
        },
        FileOpView::SetMode { path: staged_at("shutdown"@), mode: EXECUTABLE },
    ]
}

/// The changes that stage busybox and the `shutdown` script (and, in memory, the image) into the
/// initramfs, so that the next reboot flashes. A fresh `/run` clears them on every boot.
pub fn arm(p: &Plan) -> (ops: Vec<FileOp>)
    ensures
        ops_view(ops@) == arm_spec(p@),
{
    let bb: String = path::join(INITRAMFS_DIR, "busybox");
    let script: String = path::join(INITRAMFS_DIR, "shutdown");
    let mut ops: Vec<FileOp> = Vec::new();
    ops.push(FileOp::MakeDirs { path: INITRAMFS_DIR.to_owned() });
    ops.push(FileOp::Copy { from: p.busybox.clone(), to: bb.clone() });
    ops.push(FileOp::SetMode { path: bb, mode: EXECUTABLE });
    if let Source::Ram = &p.source {
        ops.push(
            FileOp::Copy { from: p.image.clone(), to: path::join(INITRAMFS_DIR, IMAGE_NAME) },
        );
    }
    ops.push(
        FileOp::Write {
            path: script.clone(),
            text: shutdown_script(p.real_node.as_str(), &p.source),
        },
    );
    ops.push(FileOp::SetMode { path: script, mode: EXECUTABLE });
    assert(ops_view(ops@) =~= arm_spec(p@));
    ops
}

// ---------------------------------------------------------------------------------------
// The run
// ---------------------------------------------------------------------------------------

/// Where a run stands: what it waits for.
#[derive(Debug, Clone, Copy, PartialEq, Eq, Structural)]
pub enum Stage {
    /// The end of the arming.
    Arming,
    /// The end of the command that reboots.
    Rebooting,
    /// Nothing: the run is over.
    Finished,
}

/// The outside work that a run asks for.
#[derive(Debug)]
pub enum Work {
    /// Make some changes, in order.
    Arm(Vec<FileOp>),
    /// Run a command.
    Call(Invocation),
    /// Nothing: the run is over.
    Nothing,
}

/// Work, with its texts as sequences of characters.
pub enum WorkView {
    Arm(Seq<FileOpView>),
    Call(bootctl::InvocationView),
    Nothing,
}

impl View for Work {
    type V = WorkView;

    open spec fn view(&self) -> WorkView {
        match self {
            Work::Arm(ops) => WorkView::Arm(ops_view(ops@)),
            Work::Call(inv) => WorkView::Call(inv@),
            Work::Nothing => WorkView::Nothing,
        }
    }
}

/// What came of the work.
#[derive(Debug)]
pub enum Event {
    /// All changes were made.
    Armed,
    /// The command ended, with success or not, and with a status.
    Exited { success: bool, status: String },
}

/// An event, with its text as a sequence of characters.
pub enum EventView {
    Armed,
    Exited { success: bool, status: Seq<char> },
}

impl View for Event {
    type V = EventView;

    open spec fn view(&self) -> EventView {
        match self {
            Event::Armed => EventView::Armed,
            Event::Exited { success, status } => EventView::Exited {
                success: *success,
                status: status@,
            },
        }
    }
}

/// What a run does next: print a text, then do some work.
#[derive(Debug)]
pub struct Step {
    /// The text to print.
    pub say: String,
    /// Where the run then stands.
    pub stage: Stage,
    /// The work to do.
    pub work: Work,
}

/// The command that reboots.
pub open spec fn reboot_spec() -> bootctl::InvocationView {
    bootctl::InvocationView { program: "systemctl"@, args: seq!["reboot"@] }
}

/// The work that a stage waits for.
pub open spec fn work_at(p: PlanView, stage: Stage) -> WorkView {
    match stage {
        Stage::Arming => WorkView::Arm(arm_spec(p)),
        Stage::Rebooting => WorkView::Call(reboot_spec()),
        Stage::Finished => WorkView::Nothing,
    }
}

/// The text and the stage of a step, with the work that goes with the stage.
pub open spec fn step_is(p: PlanView, step: Step, said: (Seq<char>, Stage)) -> bool {
    &&& step.say@ == said.0
    &&& step.stage == said.1
    &&& step.work@ == work_at(p, said.1)
}

/// The announcement of a run.
pub open spec fn header(p: PlanView, dry_run: bool) -> Seq<char> {
    "flash-rootfs: "@ + p.image + " ("@ + text::decimal_spec(p.image_len as nat) + " bytes) -> "@
        + p.root_dev + " (node "@ + p.real_node + (if dry_run {
        ") [dry-run]\n"@
    } else {
        ")\n"@
    })
}

/// The announcement of where the image comes from.
pub open spec fn source_report(p: PlanView) -> Seq<char> {
    match p.source {
        SourceView::Ram => "  staging in RAM ("@ + text::decimal_spec(p.image_len as nat) + " of "@
            + text::decimal_spec(p.budget as nat)
            + " byte budget), via systemd shutdown initramfs at "@ + INITRAMFS_DIR@ + "\n"@,
        SourceView::Staged(b) => "  staged on "@ + b.node + " ("@ + b.fstype
            + "), mounted + flashed from the shutdown initramfs at "@ + INITRAMFS_DIR@ + "\n"@,
    }
}

/// The report of a dry run.
pub open spec fn dry_report(p: PlanView) -> Seq<char> {
    "--- "@ + INITRAMFS_DIR@ + "/shutdown ---\n"@ + shutdown_script_spec(p.real_node, p.source)
        + "would copy busybox "@ + p.busybox + " and arm, then reboot\n"@
}

/// The report of the arming.
pub open spec fn armed_report(p: PlanView) -> Seq<char> {
    "armed "@ + INITRAMFS_DIR@ + " (busybox + shutdown script).\n"@
        + "WARNING: the next reboot will overwrite "@ + p.real_node
        + " in place. No rollback — a bad image needs fastboot/recovery to recover.\n"@
}

/// How a run begins.
pub open spec fn run_spec(p: PlanView, dry_run: bool) -> (Seq<char>, Stage) {
    if dry_run {
        (header(p, dry_run) + source_report(p) + dry_report(p), Stage::Finished)
    } else {
        (header(p, dry_run) + source_report(p), Stage::Arming)
    }
}

/// How a run goes on from a stage, when an event is reported.
pub open spec fn next_spec(p: PlanView, no_reboot: bool, stage: Stage, event: EventView) -> Result<
    (Seq<char>, Stage),
    error::ErrorView,
> {
    match (stage, event) {
        (Stage::Arming, EventView::Armed) => if no_reboot {
            Ok(
                (
                    armed_report(p) + "--no-reboot: the flash runs on your next `reboot`.\n"@,
                    Stage::Finished,
                ),
            )
        } else {
            Ok((armed_report(p) + "rebooting now to flash...\n"@, Stage::Rebooting))
        },
        (Stage::Rebooting, EventView::Exited { success, status }) => if success {
            Ok((seq![], Stage::Finished))
        } else {
            Err(
                error::ErrorView::ToolFailed {
                    command: bootctl::command_line(reboot_spec()),
                    status,
                },
            )
        },
        _ => Err(error::ErrorView::OutOfStep),
    }
}

/// The command that reboots.
fn reboot() -> (inv: Invocation)
    ensures
        inv@ == reboot_spec(),
{
    let mut args: Vec<String> = Vec::new();
    args.push("reboot".to_owned());
    let inv: Invocation = Invocation { program: "systemctl".to_owned(), args };
    assert(inv@ =~= reboot_spec());
    inv
}

fn header_text(p: &Plan, dry_run: bool) -> (r: String)
    ensures
        r@ == header(p@, dry_run),
{
    let mut r: String = "flash-rootfs: ".to_owned();
    r.append(p.image.as_str());
    r.append(" (");
    r.append(text::decimal(p.image_len).as_str());
    r.append(" bytes) -> ");
    r.append(p.root_dev.as_str());
    r.append(" (node ");
    r.append(p.real_node.as_str());
    if dry_run {
        r.append(") [dry-run]\n");
    } else {
        r.append(")\n");
    }
    r
}

fn source_text(p: &Plan) -> (r: String)
    ensures
        r@ == source_report(p@),
{
    match &p.source {
        Source::Ram => {
            let mut r: String = "  staging in RAM (".to_owned();
            r.append(text::decimal(p.image_len).as_str());
            r.append(" of ");
            r.append(text::decimal(p.budget).as_str());
            r.append(" byte budget), via systemd shutdown initramfs at ");
            r.append(INITRAMFS_DIR);
            r.append("\n");
            r
        },
        Source::Staged(b) => {
            let mut r: String = "  staged on ".to_owned();
            r.append(b.node.as_str());
            r.append(" (");
            r.append(b.fstype.as_str());
            r.append("), mounted + flashed from the shutdown initramfs at ");
            r.append(INITRAMFS_DIR);
            r.append("\n");
            r
        },
    }
}

fn dry_text(p: &Plan) -> (r: String)
    ensures
        r@ == dry_report(p@),
{
    let mut r: String = "--- ".to_owned();
    r.append(INITRAMFS_DIR);
    r.append("/shutdown ---\n");
    r.append(shutdown_script(p.real_node.as_str(), &p.source).as_str());
    r.append("would copy busybox ");
    r.append(p.busybox.as_str());
    r.append(" and arm, then reboot\n");
    r
}

fn armed_text(p: &Plan) -> (r: String)
    ensures
        r@ == armed_report(p@),
{
    let mut r: String = "armed ".to_owned();
    r.append(INITRAMFS_DIR);
    r.append(" (busybox + shutdown script).\n");
    r.append("WARNING: the next reboot will overwrite ");
    r.append(p.real_node.as_str());
    r.append(" in place. No rollback — a bad image needs fastboot/recovery to recover.\n");
    r
}

/// Begins a reflash: a dry run shows the script and is over; else the initramfs is armed.
pub fn run(p: &Plan, dry_run: bool) -> (step: Step)
    ensures
        step_is(p@, step, run_spec(p@, dry_run)),
{
    let mut say: String = header_text(p, dry_run);
    say.append(source_text(p).as_str());
    if dry_run {
        say.append(dry_text(p).as_str());
        Step { say, stage: Stage::Finished, work: Work::Nothing }
    } else {
        Step { say, stage: Stage::Arming, work: Work::Arm(arm(p)) }
    }
}

/// Carries a reflash on: once armed, the reboot that flashes is triggered, unless that is left
/// to the user.
pub fn next(p: &Plan, no_reboot: bool, stage: Stage, event: &Event) -> (res: Result<Step, OtaError>)
    ensures
        match (res, next_spec(p@, no_reboot, stage, event@)) {
            (Ok(step), Ok(said)) => step_is(p@, step, said),
            (Err(e), Err(v)) => e@ == v,
            _ => false,
        },
{
    match (stage, event) {
        (Stage::Arming, Event::Armed) => {
            let mut say: String = armed_text(p);
            if no_reboot {
                say.append("--no-reboot: the flash runs on your next `reboot`.\n");
                Ok(Step { say, stage: Stage::Finished, work: Work::Nothing })
            } else {
                say.append("rebooting now to flash...\n");
                Ok(Step { say, stage: Stage::Rebooting, work: Work::Call(reboot()) })
            }
        },
        (Stage::Rebooting, Event::Exited { success, status }) => match bootctl::finish(
            &reboot(),
            *success,
            status.as_str(),
        ) {
            Err(e) => Err(e),
            Ok(_) => Ok(
                Step { say: String::new(), stage: Stage::Finished, work: Work::Nothing },
            ),
        },
        _ => Err(OtaError::OutOfStep),
    }
}

// ---------------------------------------------------------------------------------------
// Laws of the memory budget
// ---------------------------------------------------------------------------------------

/// The budget is `pct` percent of the memory, rounded down by at most `pct` bytes.
pub proof fn law_budget_is_percent(mem_total: u64, pct: u8)
    ensures
        0 <= pct * mem_total - 100 * ram_budget_spec(mem_total, pct) <= 99 * pct,
{
    let q = mem_total as int / 100;
    let r = mem_total as int % 100;
    assert(mem_total == 100 * q + r);
    assert(pct * (100 * q + r) == 100 * (q * pct) + r * pct) by (nonlinear_arith);
    assert(0 <= r * pct <= 99 * pct) by (nonlinear_arith)
        requires
            0 <= r <= 99,
    ;
}

/// Up to a hundred percent, the budget is at most the whole memory.
pub proof fn law_budget_within_memory(mem_total: u64, pct: u8)
    requires
        pct <= 100,
    ensures
        0 <= ram_budget_spec(mem_total, pct) <= mem_total,
{
    let q = mem_total as int / 100;
    assert(0 <= q * pct <= q * 100) by (nonlinear_arith)
        requires
            q >= 0,
            pct <= 100,
    ;
}

/// The line that the kernel writes of the memory size is read back.
pub proof fn law_mem_line_read_back(kb: u64, pad: Seq<char>)
    requires
        forall|k: int| 0 <= k < pad.len() ==> text::is_space(#[trigger] pad[k]),
        pad.len() > 0,
    ensures
        kb_in("MemTotal:"@ + pad + text::decimal_spec(kb as nat) + " kB"@) == Some(kb),
{
    reveal_strlit("MemTotal:");
    reveal_strlit(" kB");
    let d = text::decimal_spec(kb as nat);
    let line = "MemTotal:"@ + pad + d + " kB"@;
    assert(line.subrange(0, 9) =~= "MemTotal:"@);
    let unit = seq!['k', 'B'];
    let head = pad.drop_last();
    assert(line.skip(9) =~= head.push(pad.last()) + (d.push(' ') + unit));
    assert(text::is_space(pad[pad.len() - 1]));
    assert forall|k: int| 0 <= k < head.len() implies text::is_space(#[trigger] head[k]) by {
        assert(head[k] == pad[k]);
    }
    text::lemma_words_parted(head, pad.last(), d.push(' ') + unit);
    text::lemma_no_word(head);
    text::lemma_words_parted(d, ' ', unit);
    text::lemma_decimal_plain(kb as nat);
    text::lemma_one_word(d);
    text::lemma_one_word(unit);
    text::law_decimal_read_back(kb);
    assert(text::words_spec(line.skip(9)) =~= seq![d, unit]);
}

/// The first line that gives a size counts.
pub proof fn law_first_size_counts(lines: Seq<Seq<char>>, i: int)
    requires
        0 <= i < lines.len(),
        kb_in(lines[i]) is Some,
        forall|j: int| 0 <= j < i ==> kb_in(#[trigger] lines[j]) is None,
    ensures
        first_kb(lines) == kb_in(lines[i]),
    decreases i,
{
    if i > 0 {
        assert(kb_in(lines[0]) is None);
        let tail = lines.drop_first();
        assert forall|j: int| 0 <= j < i - 1 implies kb_in(#[trigger] tail[j]) is None by {
            assert(tail[j] == lines[j + 1]);
        }
        law_first_size_counts(tail, i - 1);
    }
}

/// A memory report is read back: the line of the total counts, behind lines that give no size.
pub proof fn law_mem_report_read_back(lines: Seq<Seq<char>>, i: int, kb: u64, pad: Seq<char>)
    requires
        forall|j: int| 0 <= j < lines.len() ==> text::is_line(#[trigger] lines[j]),
        0 <= i < lines.len(),
        forall|j: int| 0 <= j < i ==> kb_in(#[trigger] lines[j]) is None,
        pad.len() > 0,
        forall|k: int| 0 <= k < pad.len() ==> text::is_space(#[trigger] pad[k]),
        lines[i] == "MemTotal:"@ + pad + text::decimal_spec(kb as nat) + " kB"@,
    ensures
        mem_total_kb_spec(text::unlines(lines)) == Some(kb),
{
    text::law_lines_read_back(lines);
    law_mem_line_read_back(kb, pad);
    law_first_size_counts(lines, i);
}

// ---------------------------------------------------------------------------------------
// Laws of the mount table
// ---------------------------------------------------------------------------------------

/// A text that was written for the mount table is read back.
pub proof fn law_escaped_read_back(s: Seq<char>)
    ensures
        unescaped(escaped(s)) == s,
    decreases s.len(),
{
    if s.len() == 0 {
        assert(unescaped(escaped(s)) =~= s);
    } else {
        let tail = s.skip(1);
        law_escaped_read_back(tail);
        let c = escaped_char(s[0]);
        let w = escaped(s);
        assert(w == c + escaped(tail));
        if c.len() == 4 {
            assert(w[0] == '\\' && w[1] == c[1] && w[2] == c[2] && w[3] == c[3]);
            assert(w.skip(4) =~= escaped(tail));
        } else {
            assert(w[0] == s[0]);
            assert(w.skip(1) =~= escaped(tail));
        }
        assert(unescaped(w) =~= seq![s[0]] + tail);
        assert(seq![s[0]] + tail =~= s);
    }
}

/// A mount that the kernel writes is read back, spaces in its paths included. `l` are the words
/// before the dash and `r` those behind it; the fourth and fifth of `l` and the second of `r` are
/// written with their spaces, tabs, line feeds and backslashes escaped.
pub proof fn law_mount_line_read_back(l: Seq<Seq<char>>, r: Seq<Seq<char>>, m: Mount)
    requires
        l.len() >= 5,
        r.len() >= 2,
        forall|i: int| 0 <= i < l.len() ==> text::is_word(#[trigger] l[i]) && l[i] != seq!['-'],
        forall|i: int| 0 <= i < r.len() ==> text::is_word(#[trigger] r[i]),
        l[3] == escaped(m.root),
        l[4] == escaped(m.mountpoint),
        r[0] == m.fstype,
        r[1] == escaped(m.source),
    ensures
        mount_in(text::unwords(l) + " - "@ + text::unwords(r)) == Some(m),
{
    text::law_halves_read_back(l, text::unwords(r));
    text::law_words_read_back(l);
    text::law_words_read_back(r);
    law_escaped_read_back(m.root);
    law_escaped_read_back(m.mountpoint);
    law_escaped_read_back(m.source);
}

/// What is written for the mount table is a word, if its text is not empty and holds no white
/// space but spaces, tabs and line feeds.
pub proof fn law_escaped_is_word(s: Seq<char>)
    requires
        s.len() > 0,
        forall|k: int|
            0 <= k < s.len() && text::is_space(#[trigger] s[k]) ==> s[k] == ' ' || s[k] == '\t'
                || s[k] == '\n',
    ensures
        text::is_word(escaped(s)),
    decreases s.len(),
{
    let c = escaped_char(s[0]);
    let tail = s.skip(1);
    assert(text::is_space(s[0]) ==> s[0] == ' ' || s[0] == '\t' || s[0] == '\n');
    assert(text::is_word(c));
    if tail.len() > 0 {
        assert forall|k: int| 0 <= k < tail.len() && text::is_space(#[trigger] tail[k]) implies tail[k]
            == ' ' || tail[k] == '\t' || tail[k] == '\n' by {
            assert(tail[k] == s[k + 1]);
        }
        law_escaped_is_word(tail);
    }
    let w = escaped(s);
    assert forall|k: int| 0 <= k < w.len() implies !text::is_space(#[trigger] w[k]) by {
        if k < c.len() {
            assert(w[k] == c[k]);
        } else {
            assert(w[k] == escaped(tail)[k - c.len()]);
        }
    }
}

/// Whether a line mounts something that `target` lies under.
pub open spec fn line_covers(line: Seq<char>, target: Seq<char>) -> bool {
    mount_in(line) matches Some(m) && path::is_under(target, m.mountpoint)
}

/// Line `i` covers `target`, and no line that does has a longer mount point.
pub open spec fn longest_covering(lines: Seq<Seq<char>>, target: Seq<char>, i: int) -> bool {
    &&& covers(lines, target, i)
    &&& forall|k: int| #[trigger]
        covers(lines, target, k) ==> point_len(lines, k) <= point_len(lines, i)
}

/// `longer` is `shorter` with lines inserted, anywhere, that do not cover `target`.
pub open spec fn padded(
    shorter: Seq<Seq<char>>,
    longer: Seq<Seq<char>>,
    target: Seq<char>,
) -> bool
    decreases longer.len(),
{
    if longer.len() == 0 {
        shorter.len() == 0
    } else {
        ||| !line_covers(longer.last(), target) && padded(shorter, longer.drop_last(), target)
        ||| shorter.len() > 0 && shorter.last() == longer.last() && padded(
            shorter.drop_last(),
            longer.drop_last(),
            target,
        )
    }
}

/// The line of `longer` that stands for line `i` of `shorter`.
proof fn lemma_padded(
    shorter: Seq<Seq<char>>,
    longer: Seq<Seq<char>>,
    target: Seq<char>,
) -> (f: spec_fn(int) -> int)
    requires
        padded(shorter, longer, target),
    ensures
        forall|i: int|
            0 <= i < shorter.len() ==> 0 <= #[trigger] f(i) < longer.len() && longer[f(i)]
                == shorter[i],
        forall|i: int, j: int|
            0 <= i < j < shorter.len() ==> #[trigger] f(i) < #[trigger] f(j),
        forall|k: int| #[trigger]
            covers(longer, target, k) ==> exists|i: int|
                0 <= i < shorter.len() && #[trigger] f(i) == k,
    decreases longer.len(),
{
    if longer.len() == 0 {
        |i: int| 0int
    } else {
        let head = longer.drop_last();
        if !line_covers(longer.last(), target) && padded(shorter, head, target) {
            let g = lemma_padded(shorter, head, target);
            assert forall|k: int| #[trigger] covers(longer, target, k) implies exists|i: int|
                0 <= i < shorter.len() && #[trigger] g(i) == k by {
                assert(k < head.len());
                assert(covers(head, target, k));
            }
            assert forall|i: int| 0 <= i < shorter.len() implies 0 <= #[trigger] g(i)
                < longer.len() && longer[g(i)] == shorter[i] by {
                assert(longer[g(i)] == head[g(i)]);
            }
            g
        } else {
            let start = shorter.drop_last();
            let n = start.len() as int;
            let g = lemma_padded(start, head, target);
            let f = |i: int|
                if i == n {
                    longer.len() - 1
                } else {
                    g(i)
                };
            assert forall|i: int| 0 <= i < shorter.len() implies 0 <= #[trigger] f(i)
                < longer.len() && longer[f(i)] == shorter[i] by {
                if i < n {
                    assert(0 <= g(i) < head.len() && head[g(i)] == start[i]);
                }
            }
            assert forall|i: int, j: int| 0 <= i < j < shorter.len() implies #[trigger] f(i)
                < #[trigger] f(j) by {
                assert(0 <= g(i) < head.len());
                if j < n {
                    assert(g(i) < g(j));
                }
            }
            assert forall|k: int| #[trigger] covers(longer, target, k) implies exists|i: int|
                0 <= i < shorter.len() && #[trigger] f(i) == k by {
                if k == longer.len() - 1 {
                    assert(f(n) == k);
                } else {
                    assert(covers(head, target, k));
                    let i = choose|i: int| 0 <= i < start.len() && #[trigger] g(i) == k;
                    assert(f(i) == k);
                }
            }
            f
        }
    }
}

/// Lines that do not cover a target do not matter to it: inserted anywhere, they leave its
/// backing as it is.
pub proof fn law_other_lines_do_not_matter(
    shorter: Seq<Seq<char>>,
    longer: Seq<Seq<char>>,
    target: Seq<char>,
)
    requires
        padded(shorter, longer, target),
    ensures
        backing_among(longer, target) == backing_among(shorter, target),
{
    let f = lemma_padded(shorter, longer, target);
    if exists|i: int| backs(shorter, target, i) {
        let i = choose|i: int| backs(shorter, target, i);
        let k = f(i);
        assert(covers(longer, target, k));
        assert forall|k2: int| #[trigger] covers(longer, target, k2) implies point_len(longer, k2)
            <= point_len(longer, k) && (k2 > k ==> point_len(longer, k2) < point_len(longer, k)) by {
            let i2 = choose|i2: int| 0 <= i2 < shorter.len() && #[trigger] f(i2) == k2;
            assert(covers(shorter, target, i2));
            if i2 < i {
                assert(f(i2) < f(i));
            }
        }
        assert(backs(longer, target, k));
        law_backing_is_unique(longer, target, k, choose|k: int| backs(longer, target, k));
    } else {
        if exists|k: int| backs(longer, target, k) {
            let k = choose|k: int| backs(longer, target, k);
            let i = choose|i: int| 0 <= i < shorter.len() && #[trigger] f(i) == k;
            assert(covers(shorter, target, i));
            let best = lemma_backing_among(shorter, target, shorter.len() as int);
            assert(backs(shorter, target, best));
        }
    }
}

/// The order of lines matters only among the longest mount points that cover the target: two
/// tables with the same covering lines, in any order, give the same backing, unless two different
/// lines share the greatest length of a covering mount point.
pub proof fn law_order_matters_only_in_ties(
    one: Seq<Seq<char>>,
    two: Seq<Seq<char>>,
    target: Seq<char>,
)
    requires
        forall|line: Seq<char>|
            line_covers(line, target) ==> (#[trigger] one.contains(line) <==> two.contains(line)),
        forall|i: int, j: int|
            longest_covering(one, target, i) && longest_covering(one, target, j) ==> (
            #[trigger] one[i]) == (#[trigger] one[j]),
    ensures
        backing_among(one, target) == backing_among(two, target),
{
    if exists|i: int| covers(one, target, i) {
        let i = choose|i: int| covers(one, target, i);
        let a = lemma_backing_among(one, target, one.len() as int);
        assert(backs(one, target, a));
        assert(one.contains(one[a]));
        let k = choose|k: int| 0 <= k < two.len() && two[k] == one[a];
        assert(two.contains(one[a]));
        assert(covers(two, target, k));
        let b = lemma_backing_among(two, target, two.len() as int);
        assert(backs(two, target, b));
        assert(two.contains(two[b]));
        assert(one.contains(two[b]));
        let j = choose|j: int| 0 <= j < one.len() && one[j] == two[b];
        assert(covers(one, target, j));
        assert(point_len(one, j) == point_len(one, a));
        assert(longest_covering(one, target, a) && longest_covering(one, target, j));
        assert(one[j] == one[a]);
        law_backing_is_unique(one, target, a, choose|i: int| backs(one, target, i));
        law_backing_is_unique(two, target, b, choose|i: int| backs(two, target, i));
    } else {
        assert forall|k: int| !covers(two, target, k) by {
            if covers(two, target, k) {
                assert(two.contains(two[k]));
                assert(one.contains(two[k]));
                let j = choose|j: int| 0 <= j < one.len() && one[j] == two[k];
                assert(covers(one, target, j));
            }
        }
        assert(forall|i: int| !backs(one, target, i));
        assert(forall|i: int| !backs(two, target, i));
    }
}

proof fn lemma_backing_among(lines: Seq<Seq<char>>, target: Seq<char>, n: int) -> (best: int)
    requires
        0 <= n <= lines.len(),
        exists|i: int| 0 <= i < n && covers(lines, target, i),
    ensures
        0 <= best < n,
        covers(lines, target, best),
        forall|j: int|
            0 <= j < n && #[trigger] covers(lines, target, j) ==> point_len(lines, j) <= point_len(
                lines,
                best,
            ) && (j > best ==> point_len(lines, j) < point_len(lines, best)),
    decreases n,
{
    let last = n - 1;
    if exists|i: int| 0 <= i < last && covers(lines, target, i) {
        let b = lemma_backing_among(lines, target, last);
        if covers(lines, target, last) && point_len(lines, last) >= point_len(lines, b) {
            last
        } else {
            b
        }
    } else {
        let i = choose|i: int| 0 <= i < n && covers(lines, target, i);
        assert(i == last);
        last
    }
}

/// Where any mount covers a target, one of them holds it.
pub proof fn law_backing_exists(mountinfo: Seq<char>, target: Seq<char>, i: int)
    requires
        covers(text::lines_spec(mountinfo), target, i),
    ensures
        backing_spec(mountinfo, target) is Some,
{
    let lines = text::lines_spec(mountinfo);
    let best = lemma_backing_among(lines, target, lines.len() as int);
    assert(backs(lines, target, best));
}

/// The mount with the longest mount point holds a target, and gives its backing.
pub proof fn law_longest_mount_backs(mountinfo: Seq<char>, target: Seq<char>, i: int)
    requires
        backs(text::lines_spec(mountinfo), target, i),
    ensures
        ({
            let m = mount_in(text::lines_spec(mountinfo)[i])->0;
            backing_spec(mountinfo, target) == Some(
                (m.source, m.fstype, fs_path_spec(m, target)),
            )
        }),
{
    let lines = text::lines_spec(mountinfo);
    law_backing_is_unique(lines, target, i, choose|k: int| backs(lines, target, k));
}

/// A mount of the root covers every absolute path.
pub proof fn law_root_mount_covers(lines: Seq<Seq<char>>, target: Seq<char>, i: int)
    requires
        0 <= i < lines.len(),
        mount_in(lines[i]) matches Some(m) && m.mountpoint == seq!['/'],
        target.len() > 0,
        target[0] == '/',
    ensures
        covers(lines, target, i),
{
    path::lemma_root_components();
    let c = path::components(target);
    assert(c.subrange(0, 1) =~= seq![seq!['/']]);
}

/// The path in the file system names the target: below the mounted part stand the very
/// components that the target has below the mount point.
pub proof fn law_fs_path_names_target(line: Seq<char>, target: Seq<char>)
    requires
        mount_in(line) matches Some(m) && path::is_under(target, m.mountpoint),
    ensures
        ({
            let m = mount_in(line)->0;
            let below = path::components(path::past(target, m.mountpoint));
            &&& path::components(target) == path::components(m.mountpoint) + below
            &&& path::components(fs_path_spec(m, target)) == path::components(m.root) + below
        }),
{
    let m = mount_in(line)->0;
    let left = (text::halves_spec(line)->0).0;
    text::lemma_words_full(left, 3);
    text::lemma_words_full(left, 4);
    lemma_unescaped_some(text::words_spec(left)[3]);
    lemma_unescaped_some(text::words_spec(left)[4]);
    path::law_strip_completes(target, m.mountpoint);
    path::law_join_adds(m.root, path::past(target, m.mountpoint));
}

// ---------------------------------------------------------------------------------------
// Laws of the script and of the arming
// ---------------------------------------------------------------------------------------

/// The line of the script that writes the image.
pub open spec fn copying_at(src: SourceView) -> int {
    7 + preparation(src).len() as int
}

/// The script starts as a busybox script, releases the old root before it writes the image, and
/// ends with a reboot. A staged image is made readable, by a read-only mount of its partition,
/// before it is read.
pub proof fn law_script_order(real_node: Seq<char>, src: SourceView)
    ensures
        ({
            let lines = script_lines(real_node, src);
            &&& lines[0] == "#!/busybox sh"@
            &&& lines[6] == "$BB umount -r -l /oldroot 2>/dev/null"@
            &&& 6 < copying_at(src) < lines.len() - 1
            &&& lines[copying_at(src)] == copying(real_node, src)
            &&& lines.last() == "$BB reboot -f"@
            &&& src matches SourceView::Staged(b) ==> 8 < copying_at(src) && lines[8]
                == "$BB mount -t "@ + b.fstype + " -o ro "@ + b.node + " /stage"@
        }),
{
}

/// The text of the script: what comes before the line that writes the image to the node, that
/// line, and what comes after.
pub proof fn law_script_writes_image(real_node: Seq<char>, src: SourceView)
    ensures
        shutdown_script_spec(real_node, src) == text::unlines(opening(real_node) + preparation(src))
            + copying(real_node, src) + "\n"@ + text::unlines(
            flashing(real_node, src).drop_first() + logging(src) + closing(),
        ),
{
    let before = opening(real_node) + preparation(src);
    let line = seq![copying(real_node, src)];
    let after = flashing(real_node, src).drop_first() + logging(src) + closing();
    assert(script_lines(real_node, src) =~= before + line + after);
    text::lemma_unlines_add(before + line, after);
    text::lemma_unlines_add(before, line);
    text::lemma_unlines_one(copying(real_node, src));
    assert(shutdown_script_spec(real_node, src) =~= text::unlines(before) + copying(real_node, src)
        + "\n"@ + text::unlines(after));
}

/// The script starts with the line that makes busybox run it.
pub proof fn law_script_starts(real_node: Seq<char>, src: SourceView)
    ensures
        shutdown_script_spec(real_node, src) == "#!/busybox sh"@ + "\n"@ + text::unlines(
            script_lines(real_node, src).drop_first(),
        ),
{
    let lines = script_lines(real_node, src);
    let first = seq![lines[0]];
    assert(lines =~= first + lines.drop_first());
    text::lemma_unlines_add(first, lines.drop_first());
    text::lemma_unlines_one(lines[0]);
}

/// An image that is held in memory is copied to where the script reads it: the initramfs becomes
/// the root.
pub proof fn law_ram_image_is_where_script_reads(p: PlanView)
    requires
        p.source is Ram,
    ensures
        arm_spec(p)[3] == (FileOpView::Copy {
            from: p.image,
            to: INITRAMFS_DIR@ + infile(SourceView::Ram),
        }),
{
    reveal_strlit("/run/initramfs");
    reveal_strlit("rootfs.img");
    reveal_strlit("/");
    assert("/"@ =~= seq!['/']);
    assert(staged_at(IMAGE_NAME@) =~= INITRAMFS_DIR@ + infile(SourceView::Ram));
}

/// A staged image is not copied: the arming copies the busybox and nothing else.
pub proof fn law_staged_image_is_not_copied(p: PlanView, i: int)
    requires
        p.source is Staged,
        0 <= i < arm_spec(p).len(),
        arm_spec(p)[i] is Copy,
    ensures
        arm_spec(p)[i] == (FileOpView::Copy { from: p.busybox, to: staged_at("busybox"@) }),
{
}

/// The arming ends with the script, at the place where systemd looks for it, and made executable.
pub proof fn law_arming_ends_with_script(p: PlanView)
    ensures
        ({
            let ops = arm_spec(p);
            &&& ops[ops.len() - 2] == (FileOpView::Write {
                path: staged_at("shutdown"@),
                text: shutdown_script_spec(p.real_node, p.source),
            })
            &&& ops[ops.len() - 1] == (FileOpView::SetMode {
                path: staged_at("shutdown"@),
                mode: EXECUTABLE,
            })
            &&& forall|i: int| 0 <= i < ops.len() - 2 ==> !((#[trigger] ops[i]) is Write)
        }),
{
}

// ---------------------------------------------------------------------------------------
// Laws of the plan and of the run
// ---------------------------------------------------------------------------------------

/// What a plan guarantees: the image fits the root partition; held in memory it fits the budget;
/// staged it lies on another partition and takes no memory.
pub proof fn law_plan_is_safe<E>(
    image: Seq<char>,
    root_dev: Seq<char>,
    busybox: Seq<char>,
    pct: u8,
    probe: Probe<E>,
)
    requires
        plan_spec(image, root_dev, busybox, pct, probe) is Ok,
    ensures
        ({
            let p = plan_spec(image, root_dev, busybox, pct, probe)->Ok_0;
            &&& probe.image_len == Ok::<u64, E>(p.image_len)
            &&& probe.part_len matches Ok(part_len) && p.image_len <= part_len
            &&& probe.busybox_present
            &&& match p.source {
                SourceView::Ram => p.image_len <= p.budget,
                SourceView::Staged(b) => p.budget == 0 && path::components(b.node)
                    != path::components(p.real_node),
            }
        }),
{
}

/// A dry run only reports: it is over at once, asks for no work, and takes no event.
pub proof fn law_dry_run_only_reports(p: PlanView, no_reboot: bool, event: EventView)
    ensures
        run_spec(p, true).1 == Stage::Finished,
        work_at(p, run_spec(p, true).1) is Nothing,
        next_spec(p, no_reboot, run_spec(p, true).1, event) is Err,
{
}

/// The reboot is triggered only after the arming, and not with `no_reboot`.
pub proof fn law_reboot_follows_arming(
    p: PlanView,
    no_reboot: bool,
    stage: Stage,
    event: EventView,
)
    requires
        next_spec(p, no_reboot, stage, event) matches Ok(said) && said.1 == Stage::Rebooting,
    ensures
        stage == Stage::Arming,
        event is Armed,
        !no_reboot,
{
}

/// Good outcomes carry a run to its end: the arming, then the reboot unless it is left to the
/// user.
pub proof fn law_good_run_finishes(p: PlanView, status: Seq<char>)
    ensures
        run_spec(p, false).1 == Stage::Arming,
        next_spec(p, true, Stage::Arming, EventView::Armed) matches Ok(said) && said.1
            == Stage::Finished,
        next_spec(p, false, Stage::Arming, EventView::Armed) matches Ok(said) && said.1
            == Stage::Rebooting,
        next_spec(
            p,
            false,
            Stage::Rebooting,
            EventView::Exited { success: true, status },
        ) matches Ok(said) && said.1 == Stage::Finished,
{
}

// ---------------------------------------------------------------------------------------
// Laws of the memory report
// ---------------------------------------------------------------------------------------

/// The line of the total gives the number in its first word, wherever that ends. Without a word it
/// gives none, and a line with another start gives none.
pub proof fn law_total_is_first_word(pad: Seq<char>, w: Seq<char>, tail: Seq<char>, line: Seq<char>)
    requires
        forall|k: int| 0 <= k < pad.len() ==> text::is_space(#[trigger] pad[k]),
        text::is_word(w),
        tail.len() > 0 ==> text::is_space(tail[0]),
    ensures
        kb_in("MemTotal:"@ + pad + w + tail) == text::parse_u64_spec(w),
        kb_in("MemTotal:"@ + pad) is None,
        line.len() < 9 || line.take(9) != "MemTotal:"@ ==> kb_in(line) is None,
{
    reveal_strlit("MemTotal:");
    let key = "MemTotal:"@;
    let full = key + pad + w + tail;
    let bare = key + pad;
    assert(full.subrange(0, 9) =~= key);
    assert(bare.subrange(0, 9) =~= key);
    assert(bare.skip(9) =~= pad);
    text::lemma_no_word(pad);
    let x = w + tail;
    assert(full.skip(9) =~= pad + x);
    text::lemma_one_word(w);
    if tail.len() > 0 {
        text::lemma_words_parted(w, tail[0], tail.skip(1));
        assert(x =~= w.push(tail[0]) + tail.skip(1));
    } else {
        assert(x =~= w);
    }
    assert(text::words_spec(x)[0] == w);
    if pad.len() > 0 {
        let head = pad.drop_last();
        assert(text::is_space(pad[pad.len() - 1]));
        assert forall|k: int| 0 <= k < head.len() implies text::is_space(#[trigger] head[k]) by {
            assert(head[k] == pad[k]);
        }
        text::lemma_no_word(head);
        text::lemma_words_parted(head, pad.last(), x);
        assert(pad + x =~= head.push(pad.last()) + x);
        assert(text::words_spec(pad + x) =~= text::words_spec(x));
    } else {
        assert(pad + x =~= x);
    }
    if line.len() >= 9 {
        assert(line.subrange(0, 9) =~= line.take(9));
    }
}

/// A memory report is read line by line: a line that gives a size decides, and behind one that
/// gives none, the rest does. Lines end in a line feed, with or without a carriage return before
/// it, and the last may end in neither.
pub proof fn law_report_is_read_by_line(line: Seq<char>, rest: Seq<char>)
    requires
        forall|k: int| 0 <= k < line.len() ==> #[trigger] line[k] != '\n',
    ensures
        line.len() == 0 || line.last() != '\r' ==> mem_total_kb_spec(line.push('\n') + rest)
            == if kb_in(line) is Some {
            kb_in(line)
        } else {
            mem_total_kb_spec(rest)
        },
        mem_total_kb_spec(line.push('\r').push('\n') + rest) == if kb_in(line) is Some {
            kb_in(line)
        } else {
            mem_total_kb_spec(rest)
        },
        mem_total_kb_spec(line) == kb_in(line),
{
    reveal_strlit("MemTotal:");
    text::law_lines_parted(line, rest);
    text::law_last_line(line);
    let after = text::lines_spec(rest);
    let all = seq![line] + after;
    assert(all.drop_first() =~= after);
    reveal_with_fuel(first_kb, 2);
    assert(seq![line].drop_first() =~= Seq::<Seq<char>>::empty());
}

/// The budget is a whole number of bytes for each percent: as many as there are whole hundreds in
/// the memory.
pub proof fn law_budget_is_hundredths(mem_total: u64, pct: u8, q: int)
    requires
        100 * q <= mem_total < 100 * q + 100,
    ensures
        ram_budget_spec(mem_total, pct) == q * pct,
{
    assert(mem_total as int / 100 == q);
}

/// The budget can be written in 64 bits exactly where the memory size in bytes can, and as many
/// bytes as there are whole hundreds in it, for each percent. Where there is no report, or no
/// size in it, nothing stands in the way.
pub proof fn law_budget_limit<E>(staging: Staging<E>, meminfo: String, pct: u8, q: int)
    requires
        mem_total_kb_spec(meminfo@) matches Some(kb) ==> 100 * q <= 1024 * kb < 100 * q + 100,
    ensures
        budget_fits(Staging::<E>::Ram(Ok(meminfo)), pct) <==> (mem_total_kb_spec(meminfo@) matches
            Some(kb) ==> 1024 * kb <= 0xffff_ffff_ffff_ffff && q * pct <= 0xffff_ffff_ffff_ffff),
        staging is Staged || (staging matches Staging::Ram(report) && report is Err)
            ==> budget_fits(staging, pct),
{
    if let Some(kb) = mem_total_kb_spec(meminfo@) {
        if 1024 * kb <= 0xffff_ffff_ffff_ffff {
            law_budget_is_hundredths((1024 * kb) as u64, pct, q);
        }
    }
}

// ---------------------------------------------------------------------------------------
// Laws of the entries of the mount table
// ---------------------------------------------------------------------------------------

/// Four characters are written as a backslash and three octal digits, and read back from them. Any
/// other character stands for itself, and so does a backslash with other characters behind it.
pub proof fn law_escapes(c: char, rest: Seq<char>)
    ensures
        unescaped(Seq::empty()) == Seq::<char>::empty(),
        unescaped(seq!['\\', '0', '4', '0'] + rest) == seq![' '] + unescaped(rest),
        unescaped(seq!['\\', '0', '1', '1'] + rest) == seq!['\t'] + unescaped(rest),
        unescaped(seq!['\\', '0', '1', '2'] + rest) == seq!['\n'] + unescaped(rest),
        unescaped(seq!['\\', '1', '3', '4'] + rest) == seq!['\\'] + unescaped(rest),
        c != '\\' || rest.len() < 3 || !(rest.take(3) == seq!['0', '4', '0'] || rest.take(3) == seq![
            '0',
            '1',
            '1',
        ] || rest.take(3) == seq!['0', '1', '2'] || rest.take(3) == seq!['1', '3', '4'])
            ==> unescaped(seq![c] + rest) == seq![c] + unescaped(rest),
{
    let a = seq!['\\', '0', '4', '0'];
    let b = seq!['\\', '0', '1', '1'];
    let d = seq!['\\', '0', '1', '2'];
    let e = seq!['\\', '1', '3', '4'];
    assert((a + rest).skip(4) =~= rest);
    assert((b + rest).skip(4) =~= rest);
    assert((d + rest).skip(4) =~= rest);
    assert((e + rest).skip(4) =~= rest);
    let w = seq![c] + rest;
    assert(w.skip(1) =~= rest);
    if starts_escaped(w) {
        let t = rest.take(3);
        assert(t[0] == w[1] && t[1] == w[2] && t[2] == w[3]);
        if w[1] == '1' {
            assert(t =~= seq!['1', '3', '4']);
        } else if w[2] == '4' {
            assert(t =~= seq!['0', '4', '0']);
        } else if w[3] == '1' {
            assert(t =~= seq!['0', '1', '1']);
        } else {
            assert(t =~= seq!['0', '1', '2']);
        }
    }
}

/// A line is an entry exactly where it has five words before its first lone dash and two behind
/// it. The fourth and the fifth word are what is mounted and where, those behind the dash the file
/// system type and the device.
pub proof fn law_entry_words(line: Seq<char>, left: Seq<char>, right: Seq<char>)
    ensures
        text::halves_spec(line) is None ==> mount_in(line) is None,
        text::halves_spec(line) == Some((left, right)) ==> {
            let l = text::words_spec(left);
            let r = text::words_spec(right);
            &&& mount_in(line) is Some <==> l.len() >= 5 && r.len() >= 2
            &&& mount_in(line) matches Some(m) ==> m.root == unescaped(l[3]) && m.mountpoint
                == unescaped(l[4]) && m.fstype == r[0] && m.source == unescaped(r[1])
        },
{
}

/// The length of a mount point is that of its UTF-8 text: one byte for a character under U+0080,
/// two under U+0800, three under U+10000, and four for any other.
pub proof fn law_lengths_are_in_bytes(s: Seq<char>, c: char)
    ensures
        byte_len(Seq::empty()) == 0,
        byte_len(seq![c] + s) == byte_len(s) + if (c as int) < 0x80 {
            1int
        } else if (c as int) < 0x800 {
            2
        } else if (c as int) < 0x10000 {
            3
        } else {
            4
        },
{
    assert((seq![c] + s).drop_first() =~= s);
    vstd::utf8::char_is_scalar(c);
}

/// The entry with the longest mount point among those whose components lead to the target, and
/// the last of them where several are as long, gives the backing: its device, its file system
/// type, and what is mounted with the rest of the target behind it.
pub proof fn law_longest_prefix_gives_backing(
    lines: Seq<Seq<char>>,
    target: Seq<char>,
    i: int,
    m: Mount,
)
    requires
        0 <= i < lines.len(),
        mount_in(lines[i]) == Some(m),
        path::components(m.mountpoint).is_prefix_of(path::components(target)),
        forall|j: int|
            0 <= j < lines.len() && (mount_in(#[trigger] lines[j]) matches Some(other)
                && path::components(other.mountpoint).is_prefix_of(path::components(target)))
                ==> byte_len((mount_in(lines[j])->0).mountpoint) <= byte_len(m.mountpoint) && (j
                > i ==> byte_len((mount_in(lines[j])->0).mountpoint) < byte_len(m.mountpoint)),
    ensures
        backing_among(lines, target) == Some(
            (m.source, m.fstype, path::join_spec(m.root, path::past(target, m.mountpoint))),
        ),
{
    assert forall|j: int| #[trigger] covers(lines, target, j) implies path::components(
        (mount_in(lines[j])->0).mountpoint,
    ).is_prefix_of(path::components(target)) by {
        let other = mount_in(lines[j])->0;
        let n = path::components(other.mountpoint).len() as int;
        if n > 0 {
            path::law_under_shares_components(target, other.mountpoint, n - 1);
        }
        assert forall|k: int| 0 <= k < n implies path::components(target)[k] == path::components(
            other.mountpoint,
        )[k] by {
            path::law_under_shares_components(target, other.mountpoint, k);
        }
        assert(path::components(target).subrange(0, n) =~= path::components(other.mountpoint));
    }
    let n = path::components(m.mountpoint).len() as int;
    let rest = path::components(target).skip(n);
    assert(path::components(m.mountpoint) + rest =~= path::components(target));
    path::law_prefix_leads(target, m.mountpoint, rest);
    assert(covers(lines, target, i));
    assert(backs(lines, target, i));
    law_backing_is_unique(lines, target, i, choose|k: int| backs(lines, target, k));
}

/// Where no entry leads to the target, there is no backing; where one does, there is one.
pub proof fn law_backing_needs_prefix(lines: Seq<Seq<char>>, target: Seq<char>)
    ensures
        backing_among(lines, target) is Some <==> exists|i: int|
            0 <= i < lines.len() && (mount_in(#[trigger] lines[i]) matches Some(m)
                && path::components(m.mountpoint).is_prefix_of(path::components(target))),
{
    if exists|i: int| covers(lines, target, i) {
        let i = choose|i: int| covers(lines, target, i);
        let best = lemma_backing_among(lines, target, lines.len() as int);
        assert(backs(lines, target, best));
        assert(mount_in(lines[i]) is Some);
    }
    if exists|i: int|
        0 <= i < lines.len() && (mount_in(#[trigger] lines[i]) matches Some(m) && path::components(
            m.mountpoint,
        ).is_prefix_of(path::components(target))) {
        let i = choose|i: int|
            0 <= i < lines.len() && (mount_in(#[trigger] lines[i]) matches Some(m)
                && path::components(m.mountpoint).is_prefix_of(path::components(target)));
        assert(covers(lines, target, i));
    }
}

/// The mount table is read line by line, from the first line to the last.
pub proof fn law_table_is_read_whole(mountinfo: Seq<char>, lines: Seq<Seq<char>>, target: Seq<char>)
    ensures
        text::lines_spec(mountinfo) == lines ==> backing_spec(mountinfo, target) == backing_among(
            lines,
            target,
        ),
        (forall|i: int| 0 <= i < lines.len() ==> text::is_line(#[trigger] lines[i]))
            ==> backing_spec(text::unlines(lines), target) == backing_among(lines, target),
{
    if forall|i: int| 0 <= i < lines.len() ==> text::is_line(#[trigger] lines[i]) {
        text::law_lines_read_back(lines);
    }
}

/// Where a whole file system is mounted, the path of an image in it is the path below the mount
/// point, behind a slash; where a part of it is mounted, behind the path of that part.
pub proof fn law_path_in_file_system(m: Mount, rest: Seq<char>)
    requires
        m.mountpoint.len() > 0,
        m.mountpoint.last() != '/',
        path::starts_and_ends_named(rest),
    ensures
        m.root == seq!['/'] ==> fs_path_spec(m, m.mountpoint.push('/') + rest) == seq!['/'] + rest,
        m.root.len() > 0 && m.root.last() != '/' ==> fs_path_spec(
            m,
            m.mountpoint.push('/') + rest,
        ) == m.root + seq!['/'] + rest,
        m.root.len() > 0 && m.root.last() == '/' ==> fs_path_spec(
            m,
            m.mountpoint.push('/') + rest,
        ) == m.root + rest,
{
    let head = m.mountpoint.push('/');
    let none = Seq::<char>::empty();
    path::law_next_component(m.mountpoint, none);
    assert(head + none =~= head);
    assert(path::components(head) =~= path::components(m.mountpoint));
    assert(text::pieces(none, text::Sep::Slash) =~= seq![none]);
    path::law_rest_is_text_below(head, rest, none, m.mountpoint);
    path::lemma_named_is_relative(rest);
    path::law_join_text(m.root.drop_last(), rest);
    path::law_join_text(m.root, rest);
    if m.root.len() > 0 && m.root.last() == '/' {
        assert(m.root.drop_last().push('/') =~= m.root);
    }
    assert(m.root.push('/') =~= m.root + seq!['/']);
}

/// An image below a mount point is found on the mounted device, at every depth of the mount point:
/// no other entry that leads to it has a mount point as long.
pub proof fn law_image_below_mount_is_on_its_device(
    lines: Seq<Seq<char>>,
    i: int,
    m: Mount,
    rest: Seq<char>,
)
    requires
        0 <= i < lines.len(),
        mount_in(lines[i]) == Some(m),
        m.root == seq!['/'],
        m.mountpoint.len() > 0,
        m.mountpoint.last() != '/',
        path::starts_and_ends_named(rest),
        forall|j: int|
            0 <= j < lines.len() && j != i && (mount_in(#[trigger] lines[j]) matches Some(other)
                && path::components(other.mountpoint).is_prefix_of(
                path::components(m.mountpoint.push('/') + rest),
            )) ==> byte_len((mount_in(lines[j])->0).mountpoint) < byte_len(m.mountpoint),
    ensures
        backing_among(lines, m.mountpoint.push('/') + rest) == Some(
            (m.source, m.fstype, seq!['/'] + rest),
        ),
{
    let target = m.mountpoint.push('/') + rest;
    path::law_below_is_under(m.mountpoint, rest);
    let n = path::components(m.mountpoint).len() as int;
    assert forall|k: int| 0 <= k < n implies path::components(target)[k] == path::components(
        m.mountpoint,
    )[k] by {
        path::law_under_shares_components(target, m.mountpoint, k);
    }
    if n > 0 {
        path::law_under_shares_components(target, m.mountpoint, n - 1);
    }
    assert(path::components(target).subrange(0, n) =~= path::components(m.mountpoint));
    law_longest_prefix_gives_backing(lines, target, i, m);
    law_path_in_file_system(m, rest);
}

// ---------------------------------------------------------------------------------------
// Laws of the script's text
// ---------------------------------------------------------------------------------------

/// The script of an image in memory, line by line. It reads the image from the root of the
/// initramfs and writes it to the node.
pub proof fn law_ram_script(real_node: Seq<char>)
    ensures
        shutdown_script_spec(real_node, SourceView::Ram) == text::unlines(
            seq![
                "#!/busybox sh"@,
                "# pixel-ota: flash the live rootfs after systemd pivoted into the shutdown initramfs."@,
                "BB=/busybox"@,
                "$BB mount -t devtmpfs dev /dev 2>/dev/null"@,
                "$BB mount -t proc proc /proc 2>/dev/null"@,
                "# release the old root tree so "@ + real_node
                    + " is no longer busy, then flash it."@,
                "$BB umount -r -l /oldroot 2>/dev/null"@,
                "$BB dd if=/rootfs.img of="@ + real_node + " bs=4M conv=fsync"@,
                "RC=$?"@,
                "$BB sync"@,
                "echo \"pixel-ota flash-rootfs: dd rc=$RC\" > /dev/kmsg 2>/dev/null"@,
                "$BB sleep 2"@,
                "$BB reboot -f"@,
            ],
        ),
{
    lemma_ram_copying(real_node);
    assert(script_lines(real_node, SourceView::Ram) =~= seq![
        "#!/busybox sh"@,
        "# pixel-ota: flash the live rootfs after systemd pivoted into the shutdown initramfs."@,
        "BB=/busybox"@,
        "$BB mount -t devtmpfs dev /dev 2>/dev/null"@,
        "$BB mount -t proc proc /proc 2>/dev/null"@,
        "# release the old root tree so "@ + real_node + " is no longer busy, then flash it."@,
        "$BB umount -r -l /oldroot 2>/dev/null"@,
        "$BB dd if=/rootfs.img of="@ + real_node + " bs=4M conv=fsync"@,
        "RC=$?"@,
        "$BB sync"@,
        "echo \"pixel-ota flash-rootfs: dd rc=$RC\" > /dev/kmsg 2>/dev/null"@,
        "$BB sleep 2"@,
        "$BB reboot -f"@,
    ]);
}

proof fn lemma_ram_copying(real_node: Seq<char>)
    ensures
        copying(real_node, SourceView::Ram) == "$BB dd if=/rootfs.img of="@ + real_node
            + " bs=4M conv=fsync"@,
{
    reveal_strlit("$BB dd if=/rootfs.img of=");
    reveal_strlit("$BB dd if=");
    reveal_strlit("/");
    reveal_strlit("rootfs.img");
    reveal_strlit(" of=");
    assert("$BB dd if="@ + ("/"@ + IMAGE_NAME@) + " of="@ =~= "$BB dd if=/rootfs.img of="@);
}

proof fn lemma_staged_copying(real_node: Seq<char>, b: BackingView)
    ensures
        copying(real_node, SourceView::Staged(b)) == "$BB dd if=/stage"@ + b.fs_path + " of="@
            + real_node + " bs=4M conv=fsync"@,
{
    reveal_strlit("$BB dd if=/stage");
    reveal_strlit("$BB dd if=");
    reveal_strlit("/stage");
    assert("$BB dd if="@ + ("/stage"@ + b.fs_path) =~= "$BB dd if=/stage"@ + b.fs_path);
}

/// The script of a staged image, line by line. It mounts the partition of the image by its node
/// and file system type, reads the image there, by its path in that file system, and writes it to
/// the node of the root.
pub proof fn law_staged_script(real_node: Seq<char>, b: BackingView)
    ensures
        shutdown_script_spec(real_node, SourceView::Staged(b)) == text::unlines(
            seq![
                "#!/busybox sh"@,
                "# pixel-ota: flash the live rootfs after systemd pivoted into the shutdown initramfs."@,
                "BB=/busybox"@,
                "$BB mount -t devtmpfs dev /dev 2>/dev/null"@,
                "$BB mount -t proc proc /proc 2>/dev/null"@,
                "# release the old root tree so "@ + real_node
                    + " is no longer busy, then flash it."@,
                "$BB umount -r -l /oldroot 2>/dev/null"@,
                "$BB mkdir -p /stage"@,
                "$BB mount -t "@ + b.fstype + " -o ro "@ + b.node + " /stage"@,
                "$BB dd if=/stage"@ + b.fs_path + " of="@ + real_node + " bs=4M conv=fsync"@,
                "RC=$?"@,
                "$BB sync"@,
                "echo \"pixel-ota flash-rootfs: dd rc=$RC\" > /dev/kmsg 2>/dev/null"@,
                "$BB mount -o remount,rw /stage 2>/dev/null"@,
                "echo \"pixel-ota flash-rootfs: dd rc=$RC ($($BB date 2>/dev/null))\" >> /stage/pixel-ota-flash.log 2>/dev/null"@,
                "$BB umount /stage 2>/dev/null"@,
                "$BB sleep 2"@,
                "$BB reboot -f"@,
            ],
        ),
{
    lemma_staged_copying(real_node, b);
    assert(script_lines(real_node, SourceView::Staged(b)) =~= seq![
        "#!/busybox sh"@,
        "# pixel-ota: flash the live rootfs after systemd pivoted into the shutdown initramfs."@,
        "BB=/busybox"@,
        "$BB mount -t devtmpfs dev /dev 2>/dev/null"@,
        "$BB mount -t proc proc /proc 2>/dev/null"@,
        "# release the old root tree so "@ + real_node + " is no longer busy, then flash it."@,
        "$BB umount -r -l /oldroot 2>/dev/null"@,
        "$BB mkdir -p /stage"@,
        "$BB mount -t "@ + b.fstype + " -o ro "@ + b.node + " /stage"@,
        "$BB dd if=/stage"@ + b.fs_path + " of="@ + real_node + " bs=4M conv=fsync"@,
        "RC=$?"@,
        "$BB sync"@,
        "echo \"pixel-ota flash-rootfs: dd rc=$RC\" > /dev/kmsg 2>/dev/null"@,
        "$BB mount -o remount,rw /stage 2>/dev/null"@,
        "echo \"pixel-ota flash-rootfs: dd rc=$RC ($($BB date 2>/dev/null))\" >> /stage/pixel-ota-flash.log 2>/dev/null"@,
        "$BB umount /stage 2>/dev/null"@,
        "$BB sleep 2"@,
        "$BB reboot -f"@,
    ]);
}

proof fn lemma_copying_stands(real_node: Seq<char>, src: SourceView)
    ensures
        text::find_spec(
            shutdown_script_spec(real_node, src),
            seq!['\n'] + copying(real_node, src) + seq!['\n'],
        ) is Some,
{
    reveal_strlit("\n");
    assert("\n"@ =~= seq!['\n']);
    law_script_writes_image(real_node, src);
    let ahead = opening(real_node) + preparation(src);
    let after = text::unlines(flashing(real_node, src).drop_first() + logging(src) + closing());
    let before = text::unlines(ahead.drop_last()) + ahead.last();
    let line = seq!['\n'] + copying(real_node, src) + seq!['\n'];
    assert(text::unlines(ahead) == before + "\n"@);
    assert(shutdown_script_spec(real_node, src) =~= before + line + after);
    text::law_search_finds(before, line, after);
}

/// The script has a line that copies the image of the plan to the node of the root: a staged image
/// by its path in the mounted file system, an image in memory from where it was copied to.
pub proof fn law_script_copies_image(real_node: Seq<char>, b: BackingView)
    ensures
        text::find_spec(
            shutdown_script_spec(real_node, SourceView::Staged(b)),
            seq!['\n'] + ("$BB dd if=/stage"@ + b.fs_path + " of="@ + real_node
                + " bs=4M conv=fsync"@) + seq!['\n'],
        ) is Some,
        text::find_spec(
            shutdown_script_spec(real_node, SourceView::Ram),
            seq!['\n'] + ("$BB dd if=/rootfs.img of="@ + real_node + " bs=4M conv=fsync"@) + seq![
                '\n',
            ],
        ) is Some,
{
    lemma_staged_copying(real_node, b);
    lemma_ram_copying(real_node);
    lemma_copying_stands(real_node, SourceView::Staged(b));
    lemma_copying_stands(real_node, SourceView::Ram);
}

/// The arming, change by change: the busybox and the script are put where systemd looks for them,
/// both executable, and an image that is held in memory beside them.
pub proof fn law_arming(p: PlanView)
    ensures
        arm_spec(p) == seq![
            FileOpView::MakeDirs { path: "/run/initramfs"@ },
            FileOpView::Copy { from: p.busybox, to: "/run/initramfs/busybox"@ },
            FileOpView::SetMode { path: "/run/initramfs/busybox"@, mode: 0o755 },
        ] + (match p.source {
            SourceView::Ram => seq![
                FileOpView::Copy { from: p.image, to: "/run/initramfs/rootfs.img"@ },
            ],
            SourceView::Staged(_) => Seq::empty(),
        }) + seq![
            FileOpView::Write {
                path: "/run/initramfs/shutdown"@,
                text: shutdown_script_spec(p.real_node, p.source),
            },
            FileOpView::SetMode { path: "/run/initramfs/shutdown"@, mode: 0o755 },
        ],
{
    assert(staged_at("busybox"@) =~= "/run/initramfs/busybox"@) by {
        reveal_strlit("/run/initramfs");
        reveal_strlit("busybox");
        reveal_strlit("/run/initramfs/busybox");
    }
    assert(staged_at("rootfs.img"@) =~= "/run/initramfs/rootfs.img"@) by {
        reveal_strlit("/run/initramfs");
        reveal_strlit("rootfs.img");
        reveal_strlit("/run/initramfs/rootfs.img");
    }
    assert(staged_at("shutdown"@) =~= "/run/initramfs/shutdown"@) by {
        reveal_strlit("/run/initramfs");
        reveal_strlit("shutdown");
        reveal_strlit("/run/initramfs/shutdown");
    }
    assert(arm_spec(p) =~= seq![
        FileOpView::MakeDirs { path: "/run/initramfs"@ },
        FileOpView::Copy { from: p.busybox, to: "/run/initramfs/busybox"@ },
        FileOpView::SetMode { path: "/run/initramfs/busybox"@, mode: 0o755 },
    ] + (match p.source {
        SourceView::Ram => seq![
            FileOpView::Copy { from: p.image, to: "/run/initramfs/rootfs.img"@ },
        ],
        SourceView::Staged(_) => Seq::empty(),
    }) + seq![
        FileOpView::Write {
            path: "/run/initramfs/shutdown"@,
            text: shutdown_script_spec(p.real_node, p.source),
        },
        FileOpView::SetMode { path: "/run/initramfs/shutdown"@, mode: 0o755 },
    ]);
}

// ---------------------------------------------------------------------------------------
// Laws of what a plan holds
// ---------------------------------------------------------------------------------------

/// A plan held in memory has the budget that was asked for: the percentage of the memory that the
/// report gives, rounded down by less than a byte for each percent.
pub proof fn law_plan_budget_is_as_asked<E>(
    image: Seq<char>,
    root_dev: Seq<char>,
    busybox: Seq<char>,
    pct: u8,
    probe: Probe<E>,
)
    requires
        budget_fits(probe.staging, pct),
        plan_spec(image, root_dev, busybox, pct, probe) matches Ok(p) && p.source is Ram,
    ensures
        probe.staging matches Staging::Ram(Ok(meminfo)) && (mem_total_kb_spec(meminfo@) matches
            Some(kb) && ({
            let p = plan_spec(image, root_dev, busybox, pct, probe)->Ok_0;
            0 <= pct * (1024 * kb) - 100 * p.budget <= 99 * pct
        })),
{
    if let Staging::Ram(Ok(meminfo)) = probe.staging {
        let total = total_spec(meminfo@) as u64;
        assert(total == 1024 * mem_total_kb_spec(meminfo@)->0);
        law_budget_is_percent(total, pct);
        assert(ram_budget_spec(total, pct) >= 0) by (nonlinear_arith)
            requires
                ram_budget_spec(total, pct) == (total as int / 100) * pct,
        ;
    }
}

/// A sound request for an image in memory is granted exactly where the image is within the
/// percentage of the memory that was asked for, and the plan and the refusal both give that
/// budget. `q` are the whole hundreds of bytes in the memory.
pub proof fn law_memory_decides<E>(
    image: Seq<char>,
    root_dev: Seq<char>,
    busybox: Seq<char>,
    pct: u8,
    probe: Probe<E>,
    meminfo: String,
    kb: u64,
    q: int,
)
    requires
        probe.image_len matches Ok(image_len) && (probe.part_len matches Ok(part_len) && image_len
            <= part_len),
        probe.busybox_present,
        probe.real_node is Ok,
        probe.staging == Staging::<E>::Ram(Ok(meminfo)),
        mem_total_kb_spec(meminfo@) == Some(kb),
        1024 * kb <= 0xffff_ffff_ffff_ffff,
        100 * q <= 1024 * kb < 100 * q + 100,
        q * pct <= 0xffff_ffff_ffff_ffff,
    ensures
        ({
            let image_len = probe.image_len->Ok_0;
            let res = plan_spec(image, root_dev, busybox, pct, probe);
            &&& image_len <= q * pct ==> (res matches Ok(p) && p.image == image && p.image_len
                == image_len && p.root_dev == root_dev && p.real_node == probe.real_node->Ok_0@
                && p.busybox == busybox && p.source is Ram && p.budget == q * pct)
            &&& image_len > q * pct ==> (res matches Err(
                error::FailureView::Ota(
                    error::ErrorView::OverBudget { image_len: len, budget, pct: asked },
                ),
            ) && len == image_len && budget == q * pct && asked == pct)
        }),
{
    law_budget_is_hundredths((1024 * kb) as u64, pct, q);
    assert(q * pct >= 0) by (nonlinear_arith)
        requires
            q >= 0,
    ;
}

/// A sound request for a staged image is granted exactly where the image lies on another
/// partition than the root: the plan is for that partition and takes no memory, whatever the
/// percentage.
pub proof fn law_partition_decides<E>(
    image: Seq<char>,
    root_dev: Seq<char>,
    busybox: Seq<char>,
    pct: u8,
    probe: Probe<E>,
    b: Backing,
)
    requires
        probe.image_len matches Ok(image_len) && (probe.part_len matches Ok(part_len) && image_len
            <= part_len),
        probe.busybox_present,
        probe.real_node is Ok,
        probe.staging == Staging::<E>::Staged(Ok(b)),
    ensures
        ({
            let node = probe.real_node->Ok_0@;
            let res = plan_spec(image, root_dev, busybox, pct, probe);
            &&& path::components(b.node@) != path::components(node) ==> (res matches Ok(p)
                && p.image == image && p.image_len == probe.image_len->Ok_0 && p.root_dev
                == root_dev && p.real_node == node && p.busybox == busybox && p.budget == 0 && (
            p.source matches SourceView::Staged(v) && v.node == b.node@ && v.fstype == b.fstype@
                && v.fs_path == b.fs_path@))
            &&& path::components(b.node@) == path::components(node) ==> (res matches Err(
                error::FailureView::Ota(error::ErrorView::StagedOnTarget { node: named }),
            ) && named == node)
        }),
{
}

/// A request fails for the first thing that is amiss, in this order: the image cannot be measured,
/// the root cannot, the image is larger than the root, there is no busybox, the node of the root
/// is not known, the place of the image is not known, the memory report gives no size.
pub proof fn law_request_refusals<E>(
    image: Seq<char>,
    root_dev: Seq<char>,
    busybox: Seq<char>,
    pct: u8,
    probe: Probe<E>,
)
    ensures
        ({
            let res = plan_spec(image, root_dev, busybox, pct, probe);
            match (probe.image_len, probe.part_len) {
                (Err(e), _) => res == Err::<PlanView, error::FailureView<E>>(
                    error::FailureView::Io(e),
                ),
                (Ok(_), Err(e)) => res == Err::<PlanView, error::FailureView<E>>(
                    error::FailureView::Io(e),
                ),
                (Ok(image_len), Ok(part_len)) => if image_len > part_len {
                    res == Err::<PlanView, error::FailureView<E>>(
                        error::FailureView::Ota(
                            error::ErrorView::RootfsTooLarge { image_len, root_dev, part_len },
                        ),
                    )
                } else if !probe.busybox_present {
                    res == Err::<PlanView, error::FailureView<E>>(
                        error::FailureView::Ota(error::ErrorView::BusyboxMissing { busybox }),
                    )
                } else {
                    match (probe.real_node, probe.staging) {
                        (Err(e), _) => res == Err::<PlanView, error::FailureView<E>>(
                            error::FailureView::Io(e),
                        ),
                        (Ok(_), Staging::Staged(Err(f))) => res == Err::<
                            PlanView,
                            error::FailureView<E>,
                        >(f@),
                        (Ok(_), Staging::Ram(Err(e))) => res == Err::<
                            PlanView,
                            error::FailureView<E>,
                        >(error::FailureView::Io(e)),
                        (Ok(_), Staging::Ram(Ok(meminfo))) => mem_total_kb_spec(meminfo@) is None
                            ==> res == Err::<PlanView, error::FailureView<E>>(
                            error::FailureView::Ota(error::ErrorView::MemTotalMissing),
                        ),
                        _ => true,
                    }
                },
            }
        }),
{
}

/// A request is sound exactly where the image and the root could be measured, the image is not
/// larger than the root, there is a busybox, and the node of the root is known.
pub proof fn law_sound_requests<E>(probe: Probe<E>)
    ensures
        sound(probe) <==> probe.busybox_present && probe.real_node is Ok && (
        probe.image_len matches Ok(image_len) && (probe.part_len matches Ok(part_len) && image_len
            <= part_len)),
{
}

// ---------------------------------------------------------------------------------------
// Laws of the steps
// ---------------------------------------------------------------------------------------

/// A run announces the image, its size, the root, its node and whether it is dry, and where the
/// image is held. A dry run shows the script that would be armed, and is over.
pub proof fn law_reflash_is_announced(p: PlanView, dry_run: bool)
    ensures
        ({
            let what = "flash-rootfs: "@ + p.image + " ("@ + text::decimal_spec(p.image_len as nat)
                + " bytes) -> "@ + p.root_dev + " (node "@ + p.real_node;
            let held = match p.source {
                SourceView::Ram => "  staging in RAM ("@ + text::decimal_spec(p.image_len as nat)
                    + " of "@ + text::decimal_spec(p.budget as nat)
                    + " byte budget), via systemd shutdown initramfs at "@ + "/run/initramfs"@
                    + "\n"@,
                SourceView::Staged(b) => "  staged on "@ + b.node + " ("@ + b.fstype
                    + "), mounted + flashed from the shutdown initramfs at "@ + "/run/initramfs"@
                    + "\n"@,
            };
            &&& run_spec(p, false) == (what + ")\n"@ + held, Stage::Arming)
            &&& run_spec(p, true) == (
                what + ") [dry-run]\n"@ + held + "--- "@ + "/run/initramfs"@ + "/shutdown ---\n"@
                    + shutdown_script_spec(p.real_node, p.source) + "would copy busybox "@
                    + p.busybox + " and arm, then reboot\n"@,
                Stage::Finished,
            )
        }),
{
    let what = "flash-rootfs: "@ + p.image + " ("@ + text::decimal_spec(p.image_len as nat)
        + " bytes) -> "@ + p.root_dev + " (node "@ + p.real_node;
    assert(header(p, false) == what + ")\n"@);
    assert(header(p, true) == what + ") [dry-run]\n"@);
    assert(run_spec(p, true).0 =~= what + ") [dry-run]\n"@ + source_report(p) + "--- "@
        + "/run/initramfs"@ + "/shutdown ---\n"@ + shutdown_script_spec(p.real_node, p.source)
        + "would copy busybox "@ + p.busybox + " and arm, then reboot\n"@);
}

/// Once armed, a run warns of the node that the next reboot overwrites; it is over where the
/// reboot is left to the user, and else reboots by `systemctl reboot`. A failed reboot is
/// reported, and any other event is out of step.
pub proof fn law_reflash_steps(
    p: PlanView,
    no_reboot: bool,
    stage: Stage,
    event: EventView,
    status: Seq<char>,
)
    ensures
        ({
            let warned = "armed "@ + "/run/initramfs"@ + " (busybox + shutdown script).\n"@
                + "WARNING: the next reboot will overwrite "@ + p.real_node
                + " in place. No rollback — a bad image needs fastboot/recovery to recover.\n"@;
            &&& next_spec(p, true, Stage::Arming, EventView::Armed) == Ok::<
                (Seq<char>, Stage),
                error::ErrorView,
            >(
                (
                    warned + "--no-reboot: the flash runs on your next `reboot`.\n"@,
                    Stage::Finished,
                ),
            )
            &&& next_spec(p, false, Stage::Arming, EventView::Armed) == Ok::<
                (Seq<char>, Stage),
                error::ErrorView,
            >((warned + "rebooting now to flash...\n"@, Stage::Rebooting))
        }),
        next_spec(
            p,
            no_reboot,
            Stage::Rebooting,
            EventView::Exited { success: true, status },
        ) == Ok::<(Seq<char>, Stage), error::ErrorView>((Seq::empty(), Stage::Finished)),
        next_spec(
            p,
            no_reboot,
            Stage::Rebooting,
            EventView::Exited { success: false, status },
        ) == Err::<(Seq<char>, Stage), error::ErrorView>(
            error::ErrorView::ToolFailed {
                command: "systemctl"@ + seq![' '] + "reboot"@,
                status,
            },
        ),
        stage is Finished || (stage is Arming && event is Exited) || (stage is Rebooting
            && event is Armed) ==> next_spec(p, no_reboot, stage, event) == Err::<
            (Seq<char>, Stage),
            error::ErrorView,
        >(error::ErrorView::OutOfStep),
{
    bootctl::law_command_is_shown("systemctl"@, Seq::empty(), "reboot"@);
}

/// The work of a stage: the arming of the plan, the reboot, or none.
pub proof fn law_reflash_work(p: PlanView)
    ensures
        work_at(p, Stage::Arming) == WorkView::Arm(arm_spec(p)),
        work_at(p, Stage::Rebooting) matches WorkView::Call(inv) && inv.program == "systemctl"@
            && inv.args == seq!["reboot"@],
        work_at(p, Stage::Finished) is Nothing,
{
}

/// A list of changes is viewed change by change, with nothing left out.
pub proof fn law_changes_are_viewed_whole(ops: Seq<FileOp>, i: int)
    ensures
        ops_view(ops).len() == ops.len(),
        0 <= i < ops.len() ==> ops_view(ops)[i] == ops[i]@,
{
}

/// A step that is right says the text, stands at the stage, and asks for the work of that stage.
pub proof fn law_step_asks_for_work(p: PlanView, step: Step, said: (Seq<char>, Stage))
    ensures
        step_is(p, step, said) <==> step.say@ == said.0 && step.stage == said.1 && step.work@
            == work_at(p, step.stage),
{
}

/// A plan, a change, an event and work are viewed as they are: with their own texts, sizes, modes
/// and outcomes.
pub proof fn law_values_are_viewed_as_they_are(p: Plan, op: FileOp, event: Event, work: Work)
    ensures
        p@.image == p.image@ && p@.image_len == p.image_len && p@.root_dev == p.root_dev@,
        p@.real_node == p.real_node@ && p@.busybox == p.busybox@ && p@.budget == p.budget,
        match p.source {
            Source::Ram => p@.source is Ram,
            Source::Staged(b) => p@.source matches SourceView::Staged(v) && v.node == b.node@
                && v.fstype == b.fstype@ && v.fs_path == b.fs_path@,
        },
        match op {
            FileOp::MakeDirs { path: a } => op@ == (FileOpView::MakeDirs { path: a@ }),
            FileOp::Copy { from: a, to: b } => op@ == (FileOpView::Copy { from: a@, to: b@ }),
            FileOp::SetMode { path: a, mode: m } => op@ == (FileOpView::SetMode {
                path: a@,
                mode: m,
            }),
            FileOp::Write { path: a, text: t } => op@ == (FileOpView::Write {
                path: a@,
                text: t@,
            }),
        },
        match event {
            Event::Armed => event@ is Armed,
            Event::Exited { success: ok, status: s } => event@ == (EventView::Exited {
                success: ok,
                status: s@,
            }),
        },
        match work {
            Work::Arm(ops) => work@ == WorkView::Arm(ops_view(ops@)),
            Work::Call(inv) => work@ == WorkView::Call(inv@),
            Work::Nothing => work@ is Nothing,
        },
{
}

/// The places that a reflash looks at and writes to.
pub proof fn law_places()
    ensures
        ROOT_DEV@ == "/dev/disk/by-partlabel/super"@,
        INITRAMFS_DIR@ == "/run/initramfs"@,
        BUSYBOX_DEFAULT@ == "/bin/busybox"@,
        MEMINFO@ == "/proc/meminfo"@,
        MOUNTINFO@ == "/proc/self/mountinfo"@,
{
}

} // verus!
