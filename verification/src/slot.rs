//! A/B slots.
//!
//! The current slot is the one that the bootloader booted. The kernel names it as
//! `androidboot.slot_suffix` in `/proc/bootconfig` and in `/proc/cmdline`. A slotted partition
//! is found at `/dev/disk/by-partlabel/<name>_<a|b>`.

use vstd::prelude::*;
use vstd::string::*;

use crate::error::OtaError;
use crate::path;
use crate::text;

verus! {

/// Where the kernel shows its boot configuration.
pub const BOOTCONFIG: &'static str = "/proc/bootconfig";

/// Where the kernel shows its command line.
pub const CMDLINE: &'static str = "/proc/cmdline";

/// Where partitions are found by their labels.
pub const BY_PARTLABEL: &'static str = "/dev/disk/by-partlabel";

/// The key whose value names the slot.
pub const FULL_KEY: &'static str = "androidboot.slot_suffix";

/// The last part of that key, which may stand alone.
pub const KEY: &'static str = "slot_suffix";

/// The letter of a slot: `a` for slot 0, `b` for any other.
pub open spec fn letter_spec(slot: usize) -> char {
    if slot == 0 {
        'a'
    } else {
        'b'
    }
}

/// Slot suffix letter for an index (0 is `a`, 1 is `b`).
pub fn letter(slot: usize) -> (c: char)
    ensures
        c == letter_spec(slot),
{
    if slot == 0 {
        'a'
    } else {
        'b'
    }
}

/// The slot's letter as a string.
pub fn letter_text(slot: usize) -> (r: &'static str)
    ensures
        r@ == seq![letter_spec(slot)],
{
    proof {
        reveal_strlit("a");
        reveal_strlit("b");
        assert("a"@ =~= seq!['a']);
        assert("b"@ =~= seq!['b']);
    }
    if slot == 0 {
        "a"
    } else {
        "b"
    }
}

/// The other slot.
pub open spec fn inactive_spec(slot: usize) -> usize {
    ((slot + 1) % 2) as usize
}

/// The other slot.
pub fn inactive(slot: usize) -> (other: usize)
    requires
        slot < usize::MAX,
    ensures
        other == inactive_spec(slot),
{
    (slot + 1) % 2
}

/// The device of partition `name` in `slot`.
pub open spec fn partition_path_spec(name: Seq<char>, slot: usize) -> Seq<char> {
    path::join_spec(BY_PARTLABEL@, name + "_"@ + seq![letter_spec(slot)])
}

/// `/dev/disk/by-partlabel/<name>_<slot>`.
pub fn partition_path(name: &str, slot: usize) -> (r: String)
    ensures
        r@ == partition_path_spec(name@, slot),
{
    let mut label: String = name.to_owned();
    label.append("_");
    label.append(letter_text(slot));
    path::join(BY_PARTLABEL, label.as_str())
}

/// Whether `c` may be part of a key.
pub open spec fn in_key(c: char) -> bool {
    'a' <= c <= 'z' || 'A' <= c <= 'Z' || '0' <= c <= '9' || c == '.' || c == '_' || c == '-'
}

/// The full key stands in `s` at position `i`, and is not part of another key.
pub open spec fn whole_key_at(s: Seq<char>, i: int) -> bool {
    &&& text::occurs_at(s, FULL_KEY@, i)
    &&& i > 0 ==> !in_key(s[i - 1])
    &&& i + FULL_KEY@.len() < s.len() ==> !in_key(s[i + FULL_KEY@.len()])
}

/// `i` is the first position of the full key in `s` where it is not part of another key.
pub open spec fn first_whole_key_at(s: Seq<char>, i: int) -> bool {
    whole_key_at(s, i) && forall|j: int| 0 <= j < i ==> !#[trigger] whole_key_at(s, j)
}

/// Where the value of the key begins. The full key decides, its first place as a key of its own
/// before any place inside another key; only where it is absent, its last part decides.
pub open spec fn value_start(s: Seq<char>) -> Option<int> {
    if exists|i: int| first_whole_key_at(s, i) {
        Some((choose|i: int| first_whole_key_at(s, i)) + FULL_KEY@.len())
    } else {
        match (text::find_spec(s, FULL_KEY@), text::find_spec(s, KEY@)) {
            (Some(at), _) => Some(at + FULL_KEY@.len()),
            (None, Some(at)) => Some(at + KEY@.len()),
            (None, None) => None,
        }
    }
}

/// The slot that a value names: the letter behind its first underscore.
pub open spec fn slot_of_value(value: Seq<char>) -> Option<usize> {
    match text::find_spec(value, "_"@) {
        None => None,
        Some(pos) => if pos + 1 < value.len() && value[pos + 1] == 'a' {
            Some(0usize)
        } else if pos + 1 < value.len() && value[pos + 1] == 'b' {
            Some(1usize)
        } else {
            None
        },
    }
}

/// The slot that a boot configuration or command line names.
pub open spec fn parse_slot_suffix_spec(s: Seq<char>) -> Option<usize> {
    match value_start(s) {
        None => None,
        Some(start) => slot_of_value(s.skip(start)),
    }
}

/// A first place as a key of its own is where the value is read.
pub proof fn lemma_value_start(s: Seq<char>, i: int)
    requires
        first_whole_key_at(s, i),
    ensures
        value_start(s) == Some((i + FULL_KEY@.len()) as int),
{
    let k = choose|k: int| first_whole_key_at(s, k);
    assert(first_whole_key_at(s, k));
    if k < i {
        assert(!whole_key_at(s, k));
    } else if i < k {
        assert(!whole_key_at(s, i));
    }
}

fn is_in_key(c: char) -> (res: bool)
    ensures
        res == in_key(c),
{
    ('a' <= c && c <= 'z') || ('A' <= c && c <= 'Z') || ('0' <= c && c <= '9') || c == '.' || c
        == '_' || c == '-'
}

/// Where the value of a full key of its own begins.
fn whole_key_end(cs: &Vec<char>) -> (res: Option<usize>)
    ensures
        match res {
            Some(end) => end <= cs@.len() && first_whole_key_at(cs@, end - FULL_KEY@.len()),
            None => forall|j: int| !#[trigger] whole_key_at(cs@, j),
        },
{
    let key: Vec<char> = text::chars_of(FULL_KEY);
    let n: usize = cs.len();
    let mut i: usize = 0;
    proof {
        reveal_strlit("androidboot.slot_suffix");
    }
    while i < n
        invariant
            n == cs.len(),
            i <= n,
            key@ == FULL_KEY@,
            FULL_KEY@.len() > 0,
            forall|j: int| 0 <= j < i ==> !#[trigger] whole_key_at(cs@, j),
        decreases n - i,
    {
        if text::stands_at(cs, &key, i) {
            let end: usize = i + key.len();
            let starts: bool = i == 0 || !is_in_key(cs[i - 1]);
            let ends: bool = end == n || !is_in_key(cs[end]);
            if starts && ends {
                assert(whole_key_at(cs@, i as int));
                return Some(end);
            }
        }
        i += 1;
    }
    None
}

/// Where the value of the key begins.
fn value_start_of(cs: &Vec<char>) -> (res: Option<usize>)
    ensures
        match res {
            Some(start) => start <= cs@.len() && value_start(cs@) == Some(start as int),
            None => value_start(cs@) is None,
        },
{
    let n: usize = cs.len();
    if let Some(end) = whole_key_end(cs) {
        proof {
            lemma_value_start(cs@, end - FULL_KEY@.len());
        }
        return Some(end);
    }
    assert(forall|i: int| !first_whole_key_at(cs@, i)) by {
        assert forall|i: int| !first_whole_key_at(cs@, i) by {
            assert(!whole_key_at(cs@, i));
        }
    }
    if let Some(at) = text::find(cs, FULL_KEY) {
        return Some(at + FULL_KEY.unicode_len());
    }
    match text::find(cs, KEY) {
        Some(at) => Some(at + KEY.unicode_len()),
        None => None,
    }
}

/// Extracts the active slot index from a bootconfig or cmdline text that holds
/// `androidboot.slot_suffix = "_a"` (bootconfig) or `androidboot.slot_suffix=_a` (cmdline).
pub fn parse_slot_suffix(s: &str) -> (res: Option<usize>)
    ensures
        res == parse_slot_suffix_spec(s@),
{
    let cs: Vec<char> = text::chars_of(s);
    let n: usize = cs.len();
    match value_start_of(&cs) {
        None => None,
        Some(start) => {
            // The key itself holds an underscore: the search starts behind it.
            let rest: &str = s.substring_char(start, n);
            let value: Vec<char> = text::chars_of(rest);
            assert(value@ =~= s@.skip(start as int));
            proof {
                reveal_strlit("_");
            }
            match text::find(&value, "_") {
                None => None,
                Some(pos) => if pos + 1 < value.len() && value[pos + 1] == 'a' {
                    Some(0)
                } else if pos + 1 < value.len() && value[pos + 1] == 'b' {
                    Some(1)
                } else {
                    None
                },
            }
        },
    }
}

/// The slot that a text names, where there is a text.
pub open spec fn slot_in(s: Option<&str>) -> Option<usize> {
    match s {
        Some(t) => parse_slot_suffix_spec(t@),
        None => None,
    }
}

/// The current (running) slot, from what the kernel shows: the boot configuration decides, the
/// command line where that does not. A text that could not be read is `None`.
pub fn current(bootconfig: Option<&str>, cmdline: Option<&str>) -> (res: Result<usize, OtaError>)
    ensures
        match (slot_in(bootconfig), slot_in(cmdline)) {
            (Some(slot), _) => res == Ok::<usize, OtaError>(slot),
            (None, Some(slot)) => res == Ok::<usize, OtaError>(slot),
            (None, None) => res == Err::<usize, OtaError>(OtaError::SlotUnknown),
        },
        res matches Ok(slot) ==> slot < 2,
{
    if let Some(s) = bootconfig {
        if let Some(slot) = parse_slot_suffix(s) {
            return Ok(slot);
        }
    }
    if let Some(s) = cmdline {
        if let Some(slot) = parse_slot_suffix(s) {
            return Ok(slot);
        }
    }
    Err(OtaError::SlotUnknown)
}

// ---------------------------------------------------------------------------------------
// Laws
// ---------------------------------------------------------------------------------------

/// The two slots are each other's inactive slot, and have different letters.
pub proof fn law_inactive_is_other(slot: usize)
    requires
        slot < 2,
    ensures
        inactive_spec(slot) < 2,
        inactive_spec(slot) != slot,
        inactive_spec(inactive_spec(slot)) == slot,
        letter_spec(inactive_spec(slot)) != letter_spec(slot),
{
}

/// A device of one slot is no device of the other, whatever the partitions.
pub proof fn law_devices_disjoint(name: Seq<char>, other: Seq<char>, slot: usize)
    requires
        slot < 2,
    ensures
        partition_path_spec(name, slot) != partition_path_spec(other, inactive_spec(slot)),
{
    lemma_device_letter(name, slot);
    lemma_device_letter(other, inactive_spec(slot));
}

proof fn lemma_device_letter(name: Seq<char>, slot: usize)
    ensures
        partition_path_spec(name, slot).len() > 0,
        partition_path_spec(name, slot).last() == letter_spec(slot),
{
}

/// A plain partition name gives `/dev/disk/by-partlabel/<name>_<slot>`.
pub proof fn law_partition_path_plain(name: Seq<char>, slot: usize)
    requires
        name.len() > 0,
        name[0] != '/',
    ensures
        partition_path_spec(name, slot) == BY_PARTLABEL@ + "/"@ + name + "_"@ + seq![
            letter_spec(slot),
        ],
{
    reveal_strlit("/dev/disk/by-partlabel");
    reveal_strlit("/");
    assert("/"@ =~= seq!['/']);
    assert(partition_path_spec(name, slot) =~= BY_PARTLABEL@ + "/"@ + name + "_"@ + seq![
        letter_spec(slot),
    ]);
}

proof fn lemma_slot_of_value(between: Seq<char>, slot: usize, after: Seq<char>)
    requires
        slot < 2,
        forall|i: int| 0 <= i < between.len() ==> between[i] != '_',
    ensures
        slot_of_value(between + "_"@ + seq![letter_spec(slot)] + after) == Some(slot),
{
    reveal_strlit("_");
    let mark = "_"@;
    assert(mark =~= seq!['_']);
    let rest = between + mark + seq![letter_spec(slot)] + after;
    let pos = between.len() as int;
    assert(rest.subrange(pos, pos + 1) =~= mark);
    assert forall|j: int| 0 <= j < pos implies !#[trigger] text::occurs_at(rest, mark, j) by {
        assert(rest[j] == between[j]);
        if text::occurs_at(rest, mark, j) {
            assert(rest.subrange(j, j + 1)[0] == mark[0]);
        }
    }
    text::lemma_find_first(rest, mark, pos);
    assert(rest[pos + 1] == letter_spec(slot));
}

/// What the kernel writes of a slot is read back, whatever other keys stand before it: where the
/// full key stands as a key of its own, for the first time, the text between it and the next
/// underscore holds none, and the slot's letter follows, that slot is read.
pub proof fn law_slot_suffix_read_back(
    before: Seq<char>,
    between: Seq<char>,
    after: Seq<char>,
    slot: usize,
)
    requires
        slot < 2,
        first_whole_key_at(
            before + FULL_KEY@ + between + "_"@ + seq![letter_spec(slot)] + after,
            before.len() as int,
        ),
        forall|i: int| 0 <= i < between.len() ==> between[i] != '_',
    ensures
        parse_slot_suffix_spec(
            before + FULL_KEY@ + between + "_"@ + seq![letter_spec(slot)] + after,
        ) == Some(slot),
{
    let s = before + FULL_KEY@ + between + "_"@ + seq![letter_spec(slot)] + after;
    lemma_value_start(s, before.len() as int);
    assert(s.skip((before.len() + FULL_KEY@.len()) as int) =~= between + "_"@ + seq![
        letter_spec(slot),
    ] + after);
    lemma_slot_of_value(between, slot, after);
}

/// Where the full key stands only inside other keys, its first place is read.
pub proof fn law_inner_key_read_back(
    before: Seq<char>,
    between: Seq<char>,
    after: Seq<char>,
    slot: usize,
)
    requires
        slot < 2,
        text::first_at(
            before + FULL_KEY@ + between + "_"@ + seq![letter_spec(slot)] + after,
            FULL_KEY@,
            before.len() as int,
        ),
        forall|j: int|
            !#[trigger] whole_key_at(
                before + FULL_KEY@ + between + "_"@ + seq![letter_spec(slot)] + after,
                j,
            ),
        forall|i: int| 0 <= i < between.len() ==> between[i] != '_',
    ensures
        parse_slot_suffix_spec(
            before + FULL_KEY@ + between + "_"@ + seq![letter_spec(slot)] + after,
        ) == Some(slot),
{
    let s = before + FULL_KEY@ + between + "_"@ + seq![letter_spec(slot)] + after;
    assert forall|i: int| !first_whole_key_at(s, i) by {
        assert(!whole_key_at(s, i));
    }
    text::lemma_find_first(s, FULL_KEY@, before.len() as int);
    assert(s.skip((before.len() + FULL_KEY@.len()) as int) =~= between + "_"@ + seq![
        letter_spec(slot),
    ] + after);
    lemma_slot_of_value(between, slot, after);
}

/// Where the full key is absent, the first place of its last part is read.
pub proof fn law_bare_suffix_read_back(
    before: Seq<char>,
    between: Seq<char>,
    after: Seq<char>,
    slot: usize,
)
    requires
        slot < 2,
        text::first_at(
            before + KEY@ + between + "_"@ + seq![letter_spec(slot)] + after,
            KEY@,
            before.len() as int,
        ),
        forall|i: int|
            !#[trigger] text::occurs_at(
                before + KEY@ + between + "_"@ + seq![letter_spec(slot)] + after,
                FULL_KEY@,
                i,
            ),
        forall|i: int| 0 <= i < between.len() ==> between[i] != '_',
    ensures
        parse_slot_suffix_spec(
            before + KEY@ + between + "_"@ + seq![letter_spec(slot)] + after,
        ) == Some(slot),
{
    let s = before + KEY@ + between + "_"@ + seq![letter_spec(slot)] + after;
    text::lemma_find_first(s, KEY@, before.len() as int);
    lemma_no_full_key(s);
    assert(s.skip((before.len() + KEY@.len()) as int) =~= between + "_"@ + seq![
        letter_spec(slot),
    ] + after);
    lemma_slot_of_value(between, slot, after);
}

proof fn lemma_no_full_key(s: Seq<char>)
    requires
        forall|i: int| !#[trigger] text::occurs_at(s, FULL_KEY@, i),
    ensures
        forall|i: int| !first_whole_key_at(s, i),
        text::find_spec(s, FULL_KEY@) is None,
{
    assert forall|i: int| !first_whole_key_at(s, i) by {
        assert(!text::occurs_at(s, FULL_KEY@, i));
    }
    assert forall|i: int| !text::first_at(s, FULL_KEY@, i) by {
        assert(!text::occurs_at(s, FULL_KEY@, i));
    }
}

/// A text without the key, in full or in part, names no slot.
pub proof fn law_no_key_no_slot(s: Seq<char>)
    requires
        forall|i: int| !#[trigger] text::occurs_at(s, KEY@, i),
    ensures
        parse_slot_suffix_spec(s) is None,
{
    reveal_strlit("androidboot.slot_suffix");
    reveal_strlit("slot_suffix");
    assert(FULL_KEY@.subrange(12, 23) =~= KEY@);
    assert forall|i: int| !#[trigger] text::occurs_at(s, FULL_KEY@, i) by {
        if text::occurs_at(s, FULL_KEY@, i) {
            assert(s.subrange(i + 12, i + 23) =~= s.subrange(i, i + 23).subrange(12, 23));
            assert(text::occurs_at(s, KEY@, i + 12));
        }
    }
    lemma_no_full_key(s);
}

/// The slot that is read is 0 or 1.
pub proof fn law_slot_is_binary(s: Seq<char>)
    ensures
        parse_slot_suffix_spec(s) matches Some(slot) ==> slot < 2,
{
}

/// Slot 0 is `a`, and every other slot is `b`. The other slot is 1 for an even slot, 0 for an odd
/// one.
pub proof fn law_letters(slot: usize)
    ensures
        letter_spec(0) == 'a',
        slot > 0 ==> letter_spec(slot) == 'b',
        slot % 2 == 0 ==> inactive_spec(slot) == 1,
        slot % 2 == 1 ==> inactive_spec(slot) == 0,
{
}

/// The device of a partition is found by its label, which is the name, an underscore, and `a` for
/// slot 0 or `b` for another slot. A name that is an absolute path is that of the device itself.
pub proof fn law_device_text(name: Seq<char>, slot: usize)
    ensures
        name.len() == 0 || name[0] != '/' ==> partition_path_spec(name, slot)
            == "/dev/disk/by-partlabel/"@ + name + seq![
            '_',
            if slot == 0 {
                'a'
            } else {
                'b'
            },
        ],
        name.len() > 0 && name[0] == '/' ==> partition_path_spec(name, slot) == name + seq![
            '_',
            if slot == 0 {
                'a'
            } else {
                'b'
            },
        ],
{
    reveal_strlit("/dev/disk/by-partlabel");
    reveal_strlit("/dev/disk/by-partlabel/");
    reveal_strlit("_");
    assert("_"@ =~= seq!['_']);
    let label = name + "_"@ + seq![letter_spec(slot)];
    assert(label =~= name + seq!['_', letter_spec(slot)]);
    if name.len() == 0 || name[0] != '/' {
        assert(label[0] != '/');
        path::law_join_text(BY_PARTLABEL@, label);
        assert(BY_PARTLABEL@.push('/') =~= "/dev/disk/by-partlabel/"@);
        assert(partition_path_spec(name, slot) =~= "/dev/disk/by-partlabel/"@ + name + seq![
            '_',
            letter_spec(slot),
        ]);
    } else {
        path::law_join_absolute(BY_PARTLABEL@, label);
    }
}

/// Keys are made of ASCII letters and digits, dots, underscores and hyphens.
pub proof fn law_key_characters(c: char)
    ensures
        in_key(c) <==> (0x61 <= c as int <= 0x7a || 0x41 <= c as int <= 0x5a || 0x30 <= c as int
            <= 0x39 || c as int == 0x2d || c as int == 0x2e || c as int == 0x5f),
{
}

/// The key stands on its own exactly where no character of a key stands before or behind it.
pub proof fn law_key_of_its_own(before: Seq<char>, after: Seq<char>)
    ensures
        whole_key_at(before + "androidboot.slot_suffix"@ + after, before.len() as int) <==> (
        before.len() > 0 ==> !in_key(before.last())) && (after.len() > 0 ==> !in_key(after[0])),
{
    let key = "androidboot.slot_suffix"@;
    let s = before + key + after;
    assert(s.subrange(before.len() as int, before.len() + key.len() as int) =~= key);
}

/// Nothing else is taken for the key.
pub proof fn law_key_is_the_key(s: Seq<char>, i: int)
    requires
        whole_key_at(s, i),
    ensures
        0 <= i <= s.len() - 23,
        s.subrange(i, i + 23) == "androidboot.slot_suffix"@,
{
    reveal_strlit("androidboot.slot_suffix");
}

/// A value names the slot by the letter behind its first underscore: `a` is slot 0, `b` slot 1,
/// and any other character, or none, no slot.
pub proof fn law_value_names_slot(between: Seq<char>, c: char, after: Seq<char>)
    requires
        forall|i: int| 0 <= i < between.len() ==> between[i] != '_',
    ensures
        slot_of_value(between + seq!['_', c] + after) == if c == 'a' {
            Some(0usize)
        } else if c == 'b' {
            Some(1usize)
        } else {
            None
        },
        slot_of_value(between + seq!['_']) is None,
        slot_of_value(between) is None,
{
    reveal_strlit("_");
    let mark = "_"@;
    assert(mark =~= seq!['_']);
    let pos = between.len() as int;
    let long = between + seq!['_', c] + after;
    let short = between + seq!['_'];
    assert(long.subrange(pos, pos + 1) =~= mark);
    assert(short.subrange(pos, pos + 1) =~= mark);
    assert forall|j: int| 0 <= j < pos implies !#[trigger] text::occurs_at(long, mark, j)
        && !text::occurs_at(short, mark, j) by {
        assert(long[j] == between[j] && short[j] == between[j]);
        if text::occurs_at(long, mark, j) {
            assert(long.subrange(j, j + 1)[0] == mark[0]);
        }
        if text::occurs_at(short, mark, j) {
            assert(short.subrange(j, j + 1)[0] == mark[0]);
        }
    }
    assert forall|j: int| 0 <= j < pos implies !#[trigger] text::occurs_at(short, mark, j) by {
        assert(!text::occurs_at(long, mark, j));
    }
    text::lemma_find_first(long, mark, pos);
    text::lemma_find_first(short, mark, pos);
    assert(long[pos + 1] == c);
    text::law_search_is_honest(between, mark);
    if let Some(i) = text::find_spec(between, mark) {
        assert(between[i] == mark[0]);
    }
}

/// The value is what stands behind the key, where the key stands on its own for the first time:
/// all of it, up to the end of the text.
pub proof fn law_value_follows_key(before: Seq<char>, value: Seq<char>)
    requires
        before.len() > 0 ==> !in_key(before.last()),
        value.len() > 0 ==> !in_key(value[0]),
        forall|j: int|
            0 <= j < before.len() ==> !#[trigger] whole_key_at(
                before + "androidboot.slot_suffix"@ + value,
                j,
            ),
    ensures
        parse_slot_suffix_spec(before + "androidboot.slot_suffix"@ + value) == slot_of_value(value),
{
    let key = "androidboot.slot_suffix"@;
    let s = before + key + value;
    law_key_of_its_own(before, value);
    lemma_value_start(s, before.len() as int);
    assert(s.skip((before.len() + key.len()) as int) =~= value);
}

/// Where the key stands inside other keys only, the value is what stands behind its first place;
/// where it stands nowhere, what stands behind the first place of its last part.
pub proof fn law_value_follows_other_key(before: Seq<char>, value: Seq<char>)
    ensures
        (forall|j: int| !#[trigger] whole_key_at(before + "androidboot.slot_suffix"@ + value, j))
            && (forall|j: int|
            0 <= j < before.len() ==> !#[trigger] text::occurs_at(
                before + "androidboot.slot_suffix"@ + value,
                "androidboot.slot_suffix"@,
                j,
            )) ==> parse_slot_suffix_spec(before + "androidboot.slot_suffix"@ + value)
            == slot_of_value(value),
        (forall|j: int|
            !#[trigger] text::occurs_at(
                before + "slot_suffix"@ + value,
                "androidboot.slot_suffix"@,
                j,
            )) && (forall|j: int|
            0 <= j < before.len() ==> !#[trigger] text::occurs_at(
                before + "slot_suffix"@ + value,
                "slot_suffix"@,
                j,
            )) ==> parse_slot_suffix_spec(before + "slot_suffix"@ + value) == slot_of_value(value),
{
    let key = "androidboot.slot_suffix"@;
    let s = before + key + value;
    let at = before.len() as int;
    if (forall|j: int| !#[trigger] whole_key_at(s, j)) && (forall|j: int|
        0 <= j < before.len() ==> !#[trigger] text::occurs_at(s, key, j)) {
        assert forall|i: int| !first_whole_key_at(s, i) by {
            assert(!whole_key_at(s, i));
        }
        assert(s.subrange(at, at + key.len()) =~= key);
        text::lemma_find_first(s, key, at);
        assert(s.skip(at + key.len()) =~= value);
    }
    let part = "slot_suffix"@;
    let t = before + part + value;
    if (forall|j: int| !#[trigger] text::occurs_at(t, key, j)) && (forall|j: int|
        0 <= j < before.len() ==> !#[trigger] text::occurs_at(t, part, j)) {
        lemma_no_full_key(t);
        assert(t.subrange(at, at + part.len()) =~= part);
        text::lemma_find_first(t, part, at);
        assert(t.skip(at + part.len()) =~= value);
    }
}

/// The running slot is the one that the whole text names: where the key stands on its own for the
/// first time, with no underscore between it and the one before the slot's letter, that slot is
/// the one of the text, whatever lines stand before and after.
pub proof fn law_text_names_slot(
    shown: &str,
    before: Seq<char>,
    between: Seq<char>,
    after: Seq<char>,
    slot: usize,
)
    requires
        slot < 2,
        shown@ == before + "androidboot.slot_suffix"@ + between + seq![
            '_',
            if slot == 0 {
                'a'
            } else {
                'b'
            },
        ] + after,
        before.len() > 0 ==> !in_key(before.last()),
        between.len() > 0,
        !in_key(between[0]),
        forall|i: int| 0 <= i < between.len() ==> between[i] != '_',
        forall|j: int| 0 <= j < before.len() ==> !#[trigger] whole_key_at(shown@, j),
    ensures
        slot_in(Some(shown)) == Some(slot),
{
    let c = if slot == 0 {
        'a'
    } else {
        'b'
    };
    let value = between + seq!['_', c] + after;
    assert(shown@ =~= before + "androidboot.slot_suffix"@ + value);
    law_value_follows_key(before, value);
    law_value_names_slot(between, c, after);
}

/// A text is read as a whole: what it names is what its characters name, and no text names
/// nothing.
pub proof fn law_shown_text_is_read(shown: &str)
    ensures
        slot_in(Some(shown)) == parse_slot_suffix_spec(shown@),
        slot_in(None) is None,
{
}

/// The key is 23 characters long, none of them a line feed or a space.
proof fn lemma_key_plain()
    ensures
        FULL_KEY@.len() == 23,
        forall|k: int| 0 <= k < 23 ==> #[trigger] FULL_KEY@[k] != '\n' && FULL_KEY@[k] != ' ',
{
    reveal_strlit("androidboot.slot_suffix");
}

/// The key does not begin in a text that does not hold it and ends in a line feed or a space.
proof fn lemma_no_key_before(before: Seq<char>, rest: Seq<char>, j: int)
    requires
        0 <= j < before.len(),
        before.last() == '\n' || before.last() == ' ',
        text::find_spec(before, FULL_KEY@) is None,
    ensures
        !text::occurs_at(before + rest, FULL_KEY@, j),
{
    lemma_key_plain();
    let s = before + rest;
    let n = before.len() as int;
    if text::occurs_at(s, FULL_KEY@, j) {
        let sub = s.subrange(j, j + 23);
        if j + 23 <= n {
            let a = before.take(j);
            let b = before.skip(j + 23);
            assert(before.subrange(j, j + 23) =~= sub);
            assert(before =~= a + before.subrange(j, j + 23) + b);
            text::law_search_finds(a, FULL_KEY@, b);
        } else {
            assert(sub[n - 1 - j] == before.last());
        }
    }
}

/// What the kernel shows of a slot is found in its line or word, behind a line feed or a space,
/// in a text that does not hold the key before it: `androidboot.slot_suffix = "_b"` in the boot
/// configuration, `androidboot.slot_suffix=_b` on the command line.
pub proof fn law_kernel_text_names_slot(
    shown: &str,
    before: Seq<char>,
    quoted: bool,
    after: Seq<char>,
    slot: usize,
)
    requires
        slot < 2,
        before.len() > 0 ==> before.last() == '\n' || before.last() == ' ',
        text::find_spec(before, "androidboot.slot_suffix"@) is None,
        shown@ == before + "androidboot.slot_suffix"@ + (if quoted {
            seq![' ', '=', ' ', '"']
        } else {
            seq!['=']
        }) + seq![
            '_',
            if slot == 0 {
                'a'
            } else {
                'b'
            },
        ] + after,
    ensures
        slot_in(Some(shown)) == Some(slot),
{
    let between = if quoted {
        seq![' ', '=', ' ', '"']
    } else {
        seq!['=']
    };
    let c = if slot == 0 {
        'a'
    } else {
        'b'
    };
    let rest = FULL_KEY@ + between + seq!['_', c] + after;
    assert(shown@ =~= before + rest);
    assert forall|j: int| 0 <= j < before.len() implies !#[trigger] whole_key_at(shown@, j) by {
        lemma_no_key_before(before, rest, j);
    }
    law_text_names_slot(shown, before, between, after, slot);
}

} // verus!
