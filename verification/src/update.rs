//! The update of a slot: flash the boot chain of the inactive slot from a directory of images,
//! then switch to it.
//!
//! `plan` says what is flashed where. `run` and `next` carry a plan out, one piece of outside
//! work at a time: each step says what to print and what to do, and the outcome of that work is
//! handed to `next`.

use vstd::prelude::*;
use vstd::string::*;

use crate::bootctl;
use crate::bootctl::Invocation;
use crate::error;
use crate::error::{Failure, OtaError};
use crate::flash;
use crate::path;
use crate::slot;
use crate::text;

verus! {

// ---------------------------------------------------------------------------------------
// The plan
// ---------------------------------------------------------------------------------------

/// What an update flashes.
#[derive(Debug)]
pub struct Plan {
    /// The running slot.
    pub current: usize,
    /// The slot to flash.
    pub target: usize,
    /// Image path, partition name and target device path, in flash order.
    pub items: Vec<(String, &'static str, String)>,
}

/// An image, its partition and its device.
#[verifier::ext_equal]
pub struct Item {
    pub image: Seq<char>,
    pub part: Seq<char>,
    pub dev: Seq<char>,
}

/// A plan, with its texts as sequences of characters.
#[verifier::ext_equal]
pub struct PlanView {
    pub current: usize,
    pub target: usize,
    pub items: Seq<Item>,
}

/// The contents of a list of items.
pub open spec fn items_view(v: Seq<(String, &'static str, String)>) -> Seq<Item> {
    Seq::new(v.len(), |i: int| Item { image: v[i].0@, part: v[i].1@, dev: v[i].2@ })
}

impl View for Plan {
    type V = PlanView;

    open spec fn view(&self) -> PlanView {
        PlanView { current: self.current, target: self.target, items: items_view(self.items@) }
    }
}

/// The contents of a directory listing: the names of the entries, `None` for a name that is not
/// Unicode.
pub open spec fn names_view(v: Seq<Option<String>>) -> Seq<Option<Seq<char>>> {
    Seq::new(
        v.len(),
        |i: int|
            match v[i] {
                Some(s) => Some(s@),
                None => None,
            },
    )
}

/// The item for one directory entry, if the entry is an image of the boot chain.
pub open spec fn item_of(dir: Seq<char>, target: usize, name: Option<Seq<char>>) -> Option<Item> {
    match name {
        None => None,
        Some(f) => match flash::image_to_partition_spec(f) {
            None => None,
            Some(part) => Some(
                Item {
                    image: path::join_spec(dir, f),
                    part,
                    dev: slot::partition_path_spec(part, target),
                },
            ),
        },
    }
}

/// The items of a directory, in listing order.
pub open spec fn listed(dir: Seq<char>, target: usize, names: Seq<Option<Seq<char>>>) -> Seq<Item>
    decreases names.len(),
{
    if names.len() == 0 {
        seq![]
    } else {
        let before = listed(dir, target, names.drop_last());
        match item_of(dir, target, names.last()) {
            Some(item) => before.push(item),
            None => before,
        }
    }
}

/// The items for one partition.
pub open spec fn of_part(items: Seq<Item>, part: Seq<char>) -> Seq<Item> {
    items.filter(|item: Item| item.part == part)
}

/// The items for the first `k` partitions of the boot chain, partition by partition.
pub open spec fn by_chain(items: Seq<Item>, k: nat) -> Seq<Item>
    decreases k,
{
    if k == 0 {
        seq![]
    } else {
        by_chain(items, (k - 1) as nat) + of_part(items, flash::chain(k - 1))
    }
}

/// What is flashed from a directory: its boot chain images, in the order of the boot chain, and
/// in listing order where several are for one partition.
pub open spec fn plan_items(dir: Seq<char>, target: usize, names: Seq<Option<Seq<char>>>) -> Seq<
    Item,
> {
    by_chain(listed(dir, target, names), 9)
}

proof fn lemma_listed_next(dir: Seq<char>, target: usize, names: Seq<Option<Seq<char>>>, i: int)
    requires
        0 <= i < names.len(),
    ensures
        listed(dir, target, names.take(i + 1)) == match item_of(dir, target, names[i]) {
            Some(item) => listed(dir, target, names.take(i)).push(item),
            None => listed(dir, target, names.take(i)),
        },
{
    assert(names.take(i + 1).drop_last() =~= names.take(i));
}

proof fn lemma_of_part_push(items: Seq<Item>, item: Item, part: Seq<char>)
    ensures
        of_part(items.push(item), part) == if item.part == part {
            of_part(items, part).push(item)
        } else {
            of_part(items, part)
        },
{
    reveal(Seq::filter);
    assert(items.push(item).drop_last() =~= items);
}

/// Appends the items for the boot chain partition `part`.
fn push_part(
    items: &mut Vec<(String, &'static str, String)>,
    image_dir: &str,
    names: &Vec<Option<String>>,
    target: usize,
    part: &'static str,
)
    ensures
        items_view(final(items)@) == items_view(old(items)@) + of_part(
            listed(image_dir@, target, names_view(names@)),
            part@,
        ),
{
    let ghost start = items_view(items@);
    let ghost all = names_view(names@);
    let mut i: usize = 0;
    proof {
        reveal(Seq::filter);
        assert(all.take(0) =~= Seq::empty());
        assert(of_part(listed(image_dir@, target, all.take(0)), part@) =~= Seq::<Item>::empty());
        assert(start + Seq::<Item>::empty() =~= start);
    }
    while i < names.len()
        invariant
            i <= names.len(),
            all == names_view(names@),
            items_view(items@) == start + of_part(
                listed(image_dir@, target, all.take(i as int)),
                part@,
            ),
        decreases names.len() - i,
    {
        let ghost before = items_view(items@);
        let ghost shorter = listed(image_dir@, target, all.take(i as int));
        proof {
            lemma_listed_next(image_dir@, target, all, i as int);
        }
        if let Some(name) = &names[i] {
            assert(all[i as int] == Some(name@));
            if let Some(found) = flash::image_to_partition(name.as_str()) {
                let ghost item = item_of(image_dir@, target, all[i as int])->0;
                proof {
                    lemma_of_part_push(shorter, item, part@);
                }
                if text::same(found, part) {
                    items.push(
                        (
                            path::join(image_dir, name.as_str()),
                            found,
                            slot::partition_path(found, target),
                        ),
                    );
                    proof {
                        assert(items_view(items@) =~= before.push(item));
                        assert(before.push(item) =~= start + of_part(shorter, part@).push(item));
                    }
                }
            }
        }
        i += 1;
    }
    assert(all.take(i as int) =~= all);
}

/// Builds the flash plan for a target slot from the listing of an image directory. Refuses to
/// target the running slot, whatever came of the listing.
pub fn plan<E>(
    image_dir: &str,
    listing: Result<Vec<Option<String>>, E>,
    current: usize,
    target: usize,
) -> (res: Result<Plan, Failure<E>>)
    ensures
        match (listing, res) {
            (_, Err(Failure::Ota(e))) => target == current && e@ == (error::ErrorView::ActiveSlot {
                slot: current,
            }),
            (Err(io), Err(Failure::Io(e))) => target != current && e == io,
            (Ok(names), Ok(p)) => target != current && p@ == (PlanView {
                current,
                target,
                items: plan_items(image_dir@, target, names_view(names@)),
            }),
            _ => false,
        },
{
    if target == current {
        return Err(Failure::Ota(OtaError::ActiveSlot { slot: current }));
    }
    let names: Vec<Option<String>> = match listing {
        Ok(names) => names,
        Err(e) => return Err(Failure::Io(e)),
    };
    let ghost found = listed(image_dir@, target, names_view(names@));
    let mut items: Vec<(String, &'static str, String)> = Vec::new();
    let mut k: usize = 0;
    assert(items_view(items@) =~= by_chain(found, 0));
    while k < 9
        invariant
            k <= 9,
            found == listed(image_dir@, target, names_view(names@)),
            items_view(items@) == by_chain(found, k as nat),
        decreases 9 - k,
    {
        let part: &'static str = flash::BOOT_CHAIN[k];
        assert(part@ == flash::chain(k as int));
        push_part(&mut items, image_dir, &names, target, part);
        k += 1;
    }
    Ok(Plan { current, target, items })
}

// ---------------------------------------------------------------------------------------
// The run
// ---------------------------------------------------------------------------------------

/// Where a run stands: what it waits for.
#[derive(Debug, Clone, Copy, PartialEq, Eq, Structural)]
pub enum Stage {
    /// Whether the device of an item exists.
    Checking(usize),
    /// The sizes of an item's image and device.
    Measuring(usize),
    /// The end of writing an item's image, of the given size.
    Writing(usize, u64),
    /// The end of the command that switches slots.
    Switching,
    /// Nothing: the run is over.
    Finished,
}

/// The outside work that a run asks for.
#[derive(Debug)]
pub enum Work {
    /// Find out whether a device exists.
    Check { dev: String },
    /// Find out the sizes of an image and of a device.
    Measure { image: String, dev: String },
    /// Write an image to a device.
    Write { image: String, dev: String },
    /// Run a command.
    Call(Invocation),
    /// Nothing: the run is over.
    Nothing,
}

/// Work, with its texts as sequences of characters.
pub enum WorkView {
    Check { dev: Seq<char> },
    Measure { image: Seq<char>, dev: Seq<char> },
    Write { image: Seq<char>, dev: Seq<char> },
    Call(bootctl::InvocationView),
    Nothing,
}

impl View for Work {
    type V = WorkView;

    open spec fn view(&self) -> WorkView {
        match self {
            Work::Check { dev } => WorkView::Check { dev: dev@ },
            Work::Measure { image, dev } => WorkView::Measure { image: image@, dev: dev@ },
            Work::Write { image, dev } => WorkView::Write { image: image@, dev: dev@ },
            Work::Call(inv) => WorkView::Call(inv@),
            Work::Nothing => WorkView::Nothing,
        }
    }
}

/// What came of the work.
#[derive(Debug)]
pub enum Event {
    /// Whether the device exists.
    Present(bool),
    /// The sizes of the image and of the device, in bytes.
    Sizes { image_len: u64, part_len: u64 },
    /// The image was written.
    Written,
    /// The command ended, with success or not, and with a status.
    Exited { success: bool, status: String },
}

/// An event, with its text as a sequence of characters.
pub enum EventView {
    Present(bool),
    Sizes { image_len: u64, part_len: u64 },
    Written,
    Exited { success: bool, status: Seq<char> },
}

impl View for Event {
    type V = EventView;

    open spec fn view(&self) -> EventView {
        match self {
            Event::Present(present) => EventView::Present(*present),
            Event::Sizes { image_len, part_len } => EventView::Sizes {
                image_len: *image_len,
                part_len: *part_len,
            },
            Event::Written => EventView::Written,
            Event::Exited { success, status } => EventView::Exited {
                success: *success,
                status: status@,
            },
        }
    }
}

/// What a run does next: print a text, then do some work.
#[derive(Debug)]
pub struct Step {
    /// The text to print.
    pub say: String,
    /// Where the run then stands.
    pub stage: Stage,
    /// The work to do.
    pub work: Work,
}

/// The options of a run.
#[derive(Debug, Clone, Copy, PartialEq, Eq, Structural)]
pub struct Options {
    /// Validate and report, without writing or switching.
    pub dry_run: bool,
    /// Flash, but leave the active slot unchanged.
    pub no_switch: bool,
}

/// The work that a stage waits for.
pub open spec fn work_at(p: PlanView, stage: Stage) -> WorkView {
    match stage {
        Stage::Checking(i) => WorkView::Check { dev: p.items[i as int].dev },
        Stage::Measuring(i) => WorkView::Measure {
            image: p.items[i as int].image,
            dev: p.items[i as int].dev,
        },
        Stage::Writing(i, _) => WorkView::Write {
            image: p.items[i as int].image,
            dev: p.items[i as int].dev,
        },
        Stage::Switching => WorkView::Call(bootctl::set_active_slot_spec(p.target)),
        Stage::Finished => WorkView::Nothing,
    }
}

/// The text and the stage of a step, with the work that goes with the stage.
pub open spec fn step_is(p: PlanView, step: Step, said: (Seq<char>, Stage)) -> bool {
    &&& step.say@ == said.0
    &&& step.stage == said.1
    &&& step.work@ == work_at(p, said.1)
}

/// The announcement of a run.
pub open spec fn header(p: PlanView, opts: Options) -> Seq<char> {
    "updating slot "@ + seq![slot::letter_spec(p.current)] + " -> "@ + seq![
        slot::letter_spec(p.target),
    ] + " ("@ + text::decimal_spec(p.items.len()) + " image(s))"@ + if opts.dry_run {
        " [dry-run]\n"@
    } else {
        "\n"@
    }
}

/// The report on one item.
pub open spec fn item_report(item: Item, opts: Options, bytes: u64) -> Seq<char> {
    (if opts.dry_run {
        "  would flash "@
    } else {
        "  flashed "@
    }) + item.part + " -> "@ + item.dev + " ("@ + text::decimal_spec(bytes as nat) + " bytes)\n"@
}

/// What follows the last item: the switch, unless it is not wanted.
pub open spec fn wrap_up(p: PlanView, opts: Options) -> (Seq<char>, Stage) {
    if opts.no_switch {
        ("--no-switch: leaving active slot unchanged\n"@, Stage::Finished)
    } else if opts.dry_run {
        (
            "would set active slot -> "@ + seq![slot::letter_spec(p.target)]
                + " via pixel-bootctl (rollback-safe: active, not successful)\n"@,
            Stage::Finished,
        )
    } else {
        (seq![], Stage::Switching)
    }
}

/// What follows item `i`, once it is done.
pub open spec fn onward(p: PlanView, opts: Options, i: usize, bytes: u64) -> (Seq<char>, Stage) {
    let report = item_report(p.items[i as int], opts, bytes);
    if i + 1 < p.items.len() {
        (report, Stage::Checking((i + 1) as usize))
    } else {
        (report + wrap_up(p, opts).0, wrap_up(p, opts).1)
    }
}

/// The report of a switch.
pub open spec fn switched(p: PlanView) -> Seq<char> {
    "active slot set to "@ + seq![slot::letter_spec(p.target)]
        + " (rollback-safe: marked active, NOT successful).\n"@
        + "reboot to apply. After a confirmed-good boot, run `pixel-ota confirm` (or let the boot-success service) to commit it — otherwise the bootloader rolls back to "@
        + seq![slot::letter_spec(p.current)] + ".\n"@
}

/// How a run begins.
pub open spec fn run_spec(p: PlanView, opts: Options) -> Result<
    (Seq<char>, Stage),
    error::ErrorView,
> {
    if p.items.len() == 0 {
        Err(error::ErrorView::NoImages)
    } else {
        Ok((header(p, opts), Stage::Checking(0)))
    }
}

/// How a run goes on from a stage, when an event is reported.
pub open spec fn next_spec(p: PlanView, opts: Options, stage: Stage, event: EventView) -> Result<
    (Seq<char>, Stage),
    error::ErrorView,
> {
    match (stage, event) {
        (Stage::Checking(i), EventView::Present(present)) if i < p.items.len() => if present {
            Ok((seq![], Stage::Measuring(i)))
        } else {
            Err(error::ErrorView::DeviceMissing { dev: p.items[i as int].dev })
        },
        (
            Stage::Measuring(i),
            EventView::Sizes { image_len, part_len },
        ) if i < p.items.len() => if image_len > part_len {
            Err(
                error::ErrorView::ImageTooLarge {
                    image: p.items[i as int].image,
                    image_len,
                    dev: p.items[i as int].dev,
                    part_len,
                },
            )
        } else if opts.dry_run {
            Ok(onward(p, opts, i, image_len))
        } else {
            Ok((seq![], Stage::Writing(i, image_len)))
        },
        (Stage::Writing(i, bytes), EventView::Written) if i < p.items.len() => Ok(
            onward(p, opts, i, bytes),
        ),
        (Stage::Switching, EventView::Exited { success, status }) => if success {
            Ok((switched(p), Stage::Finished))
        } else {
            Err(
                error::ErrorView::ToolFailed {
                    command: bootctl::command_line(bootctl::set_active_slot_spec(p.target)),
                    status,
                },
            )
        },
        _ => Err(error::ErrorView::OutOfStep),
    }
}

/// The work for a stage, as a value.
fn work_for(p: &Plan, stage: Stage) -> (w: Work)
    requires
        stage matches Stage::Checking(i) ==> i < p.items.len(),
        stage matches Stage::Measuring(i) ==> i < p.items.len(),
        stage matches Stage::Writing(i, _) ==> i < p.items.len(),
    ensures
        w@ == work_at(p@, stage),
{
    match stage {
        Stage::Checking(i) => Work::Check { dev: p.items[i].2.clone() },
        Stage::Measuring(i) => Work::Measure {
            image: p.items[i].0.clone(),
            dev: p.items[i].2.clone(),
        },
        Stage::Writing(i, _) => Work::Write {
            image: p.items[i].0.clone(),
            dev: p.items[i].2.clone(),
        },
        Stage::Switching => Work::Call(bootctl::set_active_slot(p.target)),
        Stage::Finished => Work::Nothing,
    }
}

fn header_text(p: &Plan, opts: Options) -> (r: String)
    ensures
        r@ == header(p@, opts),
{
    let mut r: String = "updating slot ".to_owned();
    r.append(slot::letter_text(p.current));
    r.append(" -> ");
    r.append(slot::letter_text(p.target));
    r.append(" (");
    r.append(text::decimal(p.items.len() as u64).as_str());
    r.append(" image(s))");
    if opts.dry_run {
        r.append(" [dry-run]\n");
    } else {
        r.append("\n");
    }
    r
}

fn onward_step(p: &Plan, opts: Options, i: usize, bytes: u64) -> (step: Step)
    requires
        i < p.items.len(),
    ensures
        step_is(p@, step, onward(p@, opts, i, bytes)),
{
    let mut say: String = if opts.dry_run {
        "  would flash ".to_owned()
    } else {
        "  flashed ".to_owned()
    };
    say.append(p.items[i].1);
    say.append(" -> ");
    say.append(p.items[i].2.as_str());
    say.append(" (");
    say.append(text::decimal(bytes).as_str());
    say.append(" bytes)\n");
    assert(say@ == item_report(p@.items[i as int], opts, bytes));
    let stage: Stage;
    if i + 1 < p.items.len() {
        stage = Stage::Checking(i + 1);
    } else if opts.no_switch {
        say.append("--no-switch: leaving active slot unchanged\n");
        stage = Stage::Finished;
    } else if opts.dry_run {
        let mut would: String = "would set active slot -> ".to_owned();
        would.append(slot::letter_text(p.target));
        would.append(" via pixel-bootctl (rollback-safe: active, not successful)\n");
        say.append(would.as_str());
        stage = Stage::Finished;
    } else {
        stage = Stage::Switching;
        assert(say@ + seq![] =~= say@);
    }
    Step { say, stage, work: work_for(p, stage) }
}

fn switched_text(p: &Plan) -> (r: String)
    ensures
        r@ == switched(p@),
{
    let mut r: String = "active slot set to ".to_owned();
    r.append(slot::letter_text(p.target));
    r.append(" (rollback-safe: marked active, NOT successful).\n");
    r.append(
        "reboot to apply. After a confirmed-good boot, run `pixel-ota confirm` (or let the boot-success service) to commit it — otherwise the bootloader rolls back to ",
    );
    r.append(slot::letter_text(p.current));
    r.append(".\n");
    r
}

/// Begins an update: a plan without items is refused; else the first device is checked.
pub fn run(p: &Plan, dry_run: bool, no_switch: bool) -> (res: Result<Step, OtaError>)
    ensures
        match (res, run_spec(p@, (Options { dry_run, no_switch }))) {
            (Ok(step), Ok(said)) => step_is(p@, step, said),
            (Err(e), Err(v)) => e@ == v,
            _ => false,
        },
{
    let opts: Options = Options { dry_run, no_switch };
    if p.items.len() == 0 {
        return Err(OtaError::NoImages);
    }
    let stage: Stage = Stage::Checking(0);
    Ok(Step { say: header_text(p, opts), stage, work: work_for(p, stage) })
}

/// Carries an update on: each image is flashed once its device is there and large enough, in the
/// order of the plan; after the last, the target slot is made active, unless that is not wanted.
pub fn next(p: &Plan, dry_run: bool, no_switch: bool, stage: Stage, event: &Event) -> (res: Result<
    Step,
    OtaError,
>)
    ensures
        match (res, next_spec(p@, (Options { dry_run, no_switch }), stage, event@)) {
            (Ok(step), Ok(said)) => step_is(p@, step, said),
            (Err(e), Err(v)) => e@ == v,
            _ => false,
        },
{
    let opts: Options = Options { dry_run, no_switch };
    match (stage, event) {
        (Stage::Checking(i), Event::Present(present)) if i < p.items.len() => if *present {
            let after: Stage = Stage::Measuring(i);
            Ok(Step { say: String::new(), stage: after, work: work_for(p, after) })
        } else {
            Err(OtaError::DeviceMissing { dev: p.items[i].2.clone() })
        },
        (
            Stage::Measuring(i),
            Event::Sizes { image_len, part_len },
        ) if i < p.items.len() => match flash::flash_image(
            p.items[i].0.as_str(),
            p.items[i].2.as_str(),
            *image_len,
            *part_len,
            opts.dry_run,
        ) {
            Err(e) => Err(e),
            Ok(f) => if f.write {
                let after: Stage = Stage::Writing(i, f.bytes);
                Ok(Step { say: String::new(), stage: after, work: work_for(p, after) })
            } else {
                Ok(onward_step(p, opts, i, f.bytes))
            },
        },
        (Stage::Writing(i, bytes), Event::Written) if i < p.items.len() => Ok(
            onward_step(p, opts, i, bytes),
        ),
        (Stage::Switching, Event::Exited { success, status }) => match bootctl::finish(
            &bootctl::set_active_slot(p.target),
            *success,
            status.as_str(),
        ) {
            Err(e) => Err(e),
            Ok(_) => Ok(
                Step { say: switched_text(p), stage: Stage::Finished, work: Work::Nothing },
            ),
        },
        _ => Err(OtaError::OutOfStep),
    }
}

// ---------------------------------------------------------------------------------------
// Laws of the plan
// ---------------------------------------------------------------------------------------

/// The position of a partition in the boot chain.
pub open spec fn rank(part: Seq<char>) -> int {
    choose|i: int| 0 <= i < 9 && #[trigger] flash::chain(i) == part
}

proof fn lemma_rank(i: int)
    requires
        0 <= i < 9,
    ensures
        rank(flash::chain(i)) == i,
{
    let k = rank(flash::chain(i));
    assert(0 <= k < 9 && flash::chain(k) == flash::chain(i));
    if k < i {
        flash::law_chain_distinct(k, i);
    } else if i < k {
        flash::law_chain_distinct(i, k);
    }
}

/// Every item is for a partition of the boot chain, on the device of that partition in the
/// target slot.
pub open spec fn well_aimed(items: Seq<Item>, target: usize) -> bool {
    forall|i: int|
        0 <= i < items.len() ==> flash::in_chain((#[trigger] items[i]).part) && items[i].dev
            == slot::partition_path_spec(items[i].part, target)
}

proof fn lemma_listed_aimed(dir: Seq<char>, target: usize, names: Seq<Option<Seq<char>>>)
    ensures
        well_aimed(listed(dir, target, names), target),
    decreases names.len(),
{
    if names.len() > 0 {
        lemma_listed_aimed(dir, target, names.drop_last());
    }
}

proof fn lemma_of_part(items: Seq<Item>, part: Seq<char>)
    ensures
        forall|i: int|
            0 <= i < of_part(items, part).len() ==> (#[trigger] of_part(items, part)[i]).part
                == part && items.contains(of_part(items, part)[i]),
{
    let ok = |item: Item| item.part == part;
    assert forall|i: int| 0 <= i < of_part(items, part).len() implies (#[trigger] of_part(
        items,
        part,
    )[i]).part == part && items.contains(of_part(items, part)[i]) by {
        items.lemma_filter_pred(ok, i);
        assert(ok(items.filter(ok)[i]));
        assert(items.filter(ok).contains(items.filter(ok)[i]));
        items.lemma_filter_contains_rev(ok, items.filter(ok)[i]);
    }
}

proof fn lemma_by_chain(items: Seq<Item>, k: nat)
    requires
        k <= 9,
    ensures
        forall|i: int|
            0 <= i < by_chain(items, k).len() ==> items.contains(#[trigger] by_chain(items, k)[i])
                && 0 <= rank(by_chain(items, k)[i].part) < k && flash::chain(
                rank(by_chain(items, k)[i].part),
            ) == by_chain(items, k)[i].part,
        forall|i: int, j: int|
            0 <= i <= j < by_chain(items, k).len() ==> rank((#[trigger] by_chain(items, k)[i]).part)
                <= rank((#[trigger] by_chain(items, k)[j]).part),
    decreases k,
{
    if k > 0 {
        lemma_by_chain(items, (k - 1) as nat);
        lemma_of_part(items, flash::chain(k - 1));
        lemma_rank(k - 1);
        let head = by_chain(items, (k - 1) as nat);
        let tail = of_part(items, flash::chain(k - 1));
        let all = by_chain(items, k);
        assert(all == head + tail);
        assert forall|i: int| 0 <= i < all.len() implies items.contains(#[trigger] all[i]) && 0
            <= rank(all[i].part) < k && flash::chain(rank(all[i].part)) == all[i].part by {
            if i < head.len() {
                assert(all[i] == head[i]);
            } else {
                assert(all[i] == tail[i - head.len()]);
            }
        }
        assert forall|i: int, j: int| 0 <= i <= j < all.len() implies rank((#[trigger] all[i]).part)
            <= rank((#[trigger] all[j]).part) by {
            if j < head.len() {
                assert(all[i] == head[i] && all[j] == head[j]);
            } else {
                assert(all[j] == tail[j - head.len()]);
            }
        }
    }
}

/// Only boot chain partitions are flashed, each on its device in the target slot, and in the
/// order of the boot chain.
pub proof fn law_plan_in_chain_order(
    dir: Seq<char>,
    target: usize,
    names: Seq<Option<Seq<char>>>,
)
    ensures
        well_aimed(plan_items(dir, target, names), target),
        forall|i: int, j: int|
            0 <= i <= j < plan_items(dir, target, names).len() ==> rank(
                (#[trigger] plan_items(dir, target, names)[i]).part,
            ) <= rank((#[trigger] plan_items(dir, target, names)[j]).part),
{
    let items = listed(dir, target, names);
    lemma_listed_aimed(dir, target, names);
    lemma_by_chain(items, 9);
    let all = plan_items(dir, target, names);
    assert forall|i: int| 0 <= i < all.len() implies flash::in_chain((#[trigger] all[i]).part)
        && all[i].dev == slot::partition_path_spec(all[i].part, target) by {
        assert(items.contains(by_chain(items, 9)[i]));
    }
}

/// A plan for one slot names no device of the other.
pub proof fn law_plan_spares_other_slot(
    dir: Seq<char>,
    target: usize,
    names: Seq<Option<Seq<char>>>,
    i: int,
    part: Seq<char>,
)
    requires
        target < 2,
        0 <= i < plan_items(dir, target, names).len(),
    ensures
        plan_items(dir, target, names)[i].dev != slot::partition_path_spec(
            part,
            slot::inactive_spec(target),
        ),
{
    law_plan_in_chain_order(dir, target, names);
    slot::law_devices_disjoint(plan_items(dir, target, names)[i].part, part, target);
}

proof fn lemma_of_part_other(items: Seq<Item>, p: Seq<char>, q: Seq<char>)
    ensures
        of_part(of_part(items, p), q) == if p == q {
            of_part(items, p)
        } else {
            Seq::empty()
        },
    decreases items.len(),
{
    reveal(Seq::filter);
    if items.len() > 0 {
        lemma_of_part_other(items.drop_last(), p, q);
        lemma_of_part_push(items.drop_last(), items.last(), p);
        assert(items.drop_last().push(items.last()) =~= items);
        if items.last().part == p {
            lemma_of_part_push(of_part(items.drop_last(), p), items.last(), q);
        }
    } else {
        assert(of_part(items, p) =~= Seq::<Item>::empty());
        assert(of_part(of_part(items, p), q) =~= Seq::<Item>::empty());
    }
}

proof fn lemma_by_chain_part(items: Seq<Item>, k: nat, m: int)
    requires
        k <= 9,
        0 <= m < 9,
    ensures
        of_part(by_chain(items, k), flash::chain(m)) == if m < k {
            of_part(items, flash::chain(m))
        } else {
            Seq::empty()
        },
    decreases k,
{
    let part = flash::chain(m);
    if k == 0 {
        reveal(Seq::filter);
        assert(of_part(by_chain(items, k), part) =~= Seq::<Item>::empty());
    } else {
        lemma_by_chain_part(items, (k - 1) as nat, m);
        let head = by_chain(items, (k - 1) as nat);
        let tail = of_part(items, flash::chain(k - 1));
        Seq::filter_distributes_over_add(head, tail, |item: Item| item.part == part);
        lemma_of_part_other(items, flash::chain(k - 1), part);
        if m < k - 1 {
            flash::law_chain_distinct(m, k - 1);
        } else if k - 1 < m {
            flash::law_chain_distinct(k - 1, m);
        }
        assert(of_part(by_chain(items, k), part) =~= if m < k {
            of_part(items, part)
        } else {
            Seq::empty()
        });
    }
}

/// The plan reorders stably: for each partition it holds the images that the directory has for
/// it, in listing order.
pub proof fn law_plan_keeps_listing_order(
    dir: Seq<char>,
    target: usize,
    names: Seq<Option<Seq<char>>>,
    m: int,
)
    requires
        0 <= m < 9,
    ensures
        of_part(plan_items(dir, target, names), flash::chain(m)) == of_part(
            listed(dir, target, names),
            flash::chain(m),
        ),
{
    lemma_by_chain_part(listed(dir, target, names), 9, m);
}

proof fn lemma_by_chain_push(items: Seq<Item>, item: Item, m: int, k: nat)
    requires
        k <= 9,
        0 <= m < 9,
        item.part == flash::chain(m),
    ensures
        by_chain(items.push(item), k).to_multiset() == if m < k {
            by_chain(items, k).to_multiset().insert(item)
        } else {
            by_chain(items, k).to_multiset()
        },
    decreases k,
{
    if k > 0 {
        let n = k - 1;
        lemma_by_chain_push(items, item, m, n as nat);
        lemma_of_part_push(items, item, flash::chain(n));
        let head = by_chain(items, n as nat);
        let tail = of_part(items, flash::chain(n));
        let head2 = by_chain(items.push(item), n as nat);
        let tail2 = of_part(items.push(item), flash::chain(n));
        vstd::seq_lib::lemma_multiset_commutative(head, tail);
        vstd::seq_lib::lemma_multiset_commutative(head2, tail2);
        if m < n {
            flash::law_chain_distinct(m, n);
        } else if n < m {
            flash::law_chain_distinct(n, m);
        } else {
            tail.to_multiset_ensures();
            assert(tail2.to_multiset() =~= tail.to_multiset().insert(item));
        }
        assert(by_chain(items.push(item), k).to_multiset() =~= if m < k {
            by_chain(items, k).to_multiset().insert(item)
        } else {
            by_chain(items, k).to_multiset()
        });
    }
}

proof fn lemma_by_chain_all(items: Seq<Item>)
    requires
        forall|i: int| 0 <= i < items.len() ==> flash::in_chain((#[trigger] items[i]).part),
    ensures
        by_chain(items, 9).to_multiset() == items.to_multiset(),
    decreases items.len(),
{
    if items.len() == 0 {
        lemma_by_chain(items, 9);
        if by_chain(items, 9).len() > 0 {
            assert(items.contains(by_chain(items, 9)[0]));
        }
        assert(by_chain(items, 9) =~= items);
    } else {
        let head = items.drop_last();
        lemma_by_chain_all(head);
        let m = choose|m: int| 0 <= m < 9 && #[trigger] flash::chain(m) == items.last().part;
        assert(flash::in_chain(items[items.len() - 1].part));
        lemma_by_chain_push(head, items.last(), m, 9);
        assert(head.push(items.last()) =~= items);
        head.to_multiset_ensures();
    }
}

/// Nothing is lost and nothing is added: the plan holds exactly the boot chain images of the
/// directory, each as often as it is listed.
pub proof fn law_plan_is_complete(dir: Seq<char>, target: usize, names: Seq<Option<Seq<char>>>)
    ensures
        plan_items(dir, target, names).to_multiset() == listed(dir, target, names).to_multiset(),
        plan_items(dir, target, names).len() == listed(dir, target, names).len(),
{
    let items = listed(dir, target, names);
    lemma_listed_aimed(dir, target, names);
    lemma_by_chain_all(items);
    items.to_multiset_ensures();
    plan_items(dir, target, names).to_multiset_ensures();
}

// ---------------------------------------------------------------------------------------
// Laws of the run
// ---------------------------------------------------------------------------------------

/// The stage and the work so far of a run to which a list of events was reported.
pub open spec fn trace(p: PlanView, opts: Options, events: Seq<EventView>) -> Result<
    (Stage, Seq<WorkView>),
    error::ErrorView,
>
    decreases events.len(),
{
    if events.len() == 0 {
        match run_spec(p, opts) {
            Ok(said) => Ok((said.1, seq![work_at(p, said.1)])),
            Err(e) => Err(e),
        }
    } else {
        match trace(p, opts, events.drop_last()) {
            Ok((stage, done)) => match next_spec(p, opts, stage, events.last()) {
                Ok(said) => Ok((said.1, done.push(work_at(p, said.1)))),
                Err(e) => Err(e),
            },
            Err(e) => Err(e),
        }
    }
}

/// The writes among some work.
pub open spec fn writes(done: Seq<WorkView>) -> Seq<WorkView> {
    done.filter(|w: WorkView| w is Write)
}

/// The writes of a whole plan, in order.
pub open spec fn all_writes(p: PlanView) -> Seq<WorkView> {
    Seq::new(
        p.items.len(),
        |i: int| WorkView::Write { image: p.items[i].image, dev: p.items[i].dev },
    )
}

/// How many items a run has asked to write.
pub open spec fn asked(p: PlanView, stage: Stage) -> int {
    match stage {
        Stage::Checking(i) => i as int,
        Stage::Measuring(i) => i as int,
        Stage::Writing(i, _) => i + 1,
        Stage::Switching => p.items.len() as int,
        Stage::Finished => p.items.len() as int,
    }
}

proof fn lemma_writes_push(done: Seq<WorkView>, w: WorkView)
    ensures
        writes(done.push(w)) == if w is Write {
            writes(done).push(w)
        } else {
            writes(done)
        },
{
    reveal(Seq::filter);
    assert(done.push(w).drop_last() =~= done);
}

proof fn lemma_trace(p: PlanView, opts: Options, events: Seq<EventView>)
    requires
        trace(p, opts, events) is Ok,
        p.items.len() <= usize::MAX,
    ensures
        ({
            let (stage, done) = trace(p, opts, events)->Ok_0;
            &&& 0 <= asked(p, stage) <= p.items.len()
            &&& stage matches Stage::Checking(i) ==> i < p.items.len()
            &&& stage matches Stage::Measuring(i) ==> i < p.items.len()
            &&& stage matches Stage::Writing(i, _) ==> i < p.items.len() && !opts.dry_run
            &&& stage is Switching ==> !opts.dry_run && !opts.no_switch
            &&& writes(done) == if opts.dry_run {
                Seq::empty()
            } else {
                all_writes(p).take(asked(p, stage))
            }
            &&& forall|k: int|
                0 <= k < done.len() && (#[trigger] done[k]) is Call ==> done[k] == WorkView::Call(
                    bootctl::set_active_slot_spec(p.target),
                ) && !opts.dry_run && !opts.no_switch && (stage is Switching || stage is Finished)
                    && k + (if stage is Finished { 2int } else { 1int }) == done.len()
            &&& done.len() > 0 && done.last() == work_at(p, stage)
            &&& stage is Finished && !opts.dry_run && !opts.no_switch ==> done.len() >= 2
                && done[done.len() - 2] is Call
        }),
    decreases events.len(),
{
    let (stage, done) = trace(p, opts, events)->Ok_0;
    if events.len() == 0 {
        let none = Seq::<WorkView>::empty();
        assert(writes(none) =~= none) by {
            reveal(Seq::filter);
        }
        lemma_writes_push(none, work_at(p, stage));
        assert(none.push(work_at(p, stage)) =~= done);
        assert(all_writes(p).take(0) =~= none);
    } else {
        let shorter = events.drop_last();
        lemma_trace(p, opts, shorter);
        let (before, work) = trace(p, opts, shorter)->Ok_0;
        lemma_writes_push(work, work_at(p, stage));
        assert(done == work.push(work_at(p, stage)));
        if let Stage::Writing(i, _) = stage {
            assert(all_writes(p).take(i + 1) =~= all_writes(p).take(i as int).push(
                all_writes(p)[i as int],
            ));
        }
        assert forall|k: int| 0 <= k < done.len() && (#[trigger] done[k]) is Call implies done[k]
            == WorkView::Call(bootctl::set_active_slot_spec(p.target)) && !opts.dry_run
            && !opts.no_switch && (stage is Switching || stage is Finished) && k + (
        if stage is Finished {
            2int
        } else {
            1int
        }) == done.len() by {
            if k < work.len() {
                assert(done[k] == work[k]);
            }
        }
    }
}

/// At every stage of a run, and so when it fails at its next event, the writes it has asked for
/// are exactly those of the first items of the plan, as many as the stage says (none in a dry
/// run), and it has asked for the switch at most once.
pub proof fn law_writes_so_far(p: PlanView, opts: Options, events: Seq<EventView>)
    requires
        p.items.len() <= usize::MAX,
        trace(p, opts, events) is Ok,
    ensures
        ({
            let (stage, done) = trace(p, opts, events)->Ok_0;
            &&& 0 <= asked(p, stage) <= p.items.len()
            &&& writes(done) == if opts.dry_run {
                Seq::empty()
            } else {
                all_writes(p).take(asked(p, stage))
            }
            &&& forall|i: int, j: int|
                0 <= i < done.len() && 0 <= j < done.len() && (#[trigger] done[i]) is Call && (
                #[trigger] done[j]) is Call ==> i == j
            &&& forall|i: int|
                0 <= i < done.len() && (#[trigger] done[i]) is Call ==> stage is Switching
                    || stage is Finished
        }),
{
    lemma_trace(p, opts, events);
}

/// A dry run writes nothing and runs no command, whatever is reported to it.
pub proof fn law_dry_run_touches_nothing(
    p: PlanView,
    opts: Options,
    events: Seq<EventView>,
    k: int,
)
    requires
        opts.dry_run,
        p.items.len() <= usize::MAX,
        trace(p, opts, events) matches Ok((_, done)) && 0 <= k < done.len(),
    ensures
        !((trace(p, opts, events)->Ok_0).1[k] is Write),
        !((trace(p, opts, events)->Ok_0).1[k] is Call),
{
    lemma_trace(p, opts, events);
    let done = (trace(p, opts, events)->Ok_0).1;
    if done[k] is Write {
        let ok = |w: WorkView| w is Write;
        assert(ok(done[k]));
        done.lemma_filter_contains(ok, k);
        assert(writes(done).contains(done[k]));
    }
}

/// With `no_switch`, a run never touches the active slot.
pub proof fn law_no_switch_leaves_slot(
    p: PlanView,
    opts: Options,
    events: Seq<EventView>,
    k: int,
)
    requires
        opts.no_switch,
        p.items.len() <= usize::MAX,
        trace(p, opts, events) matches Ok((_, done)) && 0 <= k < done.len(),
    ensures
        !((trace(p, opts, events)->Ok_0).1[k] is Call),
{
    lemma_trace(p, opts, events);
}

/// The only command of a run makes the target slot active, without committing it. It comes when
/// every image of the plan was written, in the order of the plan, and nothing is written after
/// it.
pub proof fn law_switch_comes_last(p: PlanView, opts: Options, events: Seq<EventView>, k: int)
    requires
        p.items.len() <= usize::MAX,
        trace(p, opts, events) matches Ok((_, done)) && 0 <= k < done.len() && done[k] is Call,
    ensures
        (trace(p, opts, events)->Ok_0).1[k] == WorkView::Call(
            bootctl::set_active_slot_spec(p.target),
        ),
        (trace(p, opts, events)->Ok_0).1[k] != WorkView::Call(bootctl::mark_successful_spec()),
        writes((trace(p, opts, events)->Ok_0).1.take(k)) == all_writes(p),
        writes((trace(p, opts, events)->Ok_0).1) == all_writes(p),
{
    lemma_trace(p, opts, events);
    bootctl::law_switch_does_not_commit(p.target);
    let (stage, done) = trace(p, opts, events)->Ok_0;
    assert(all_writes(p).take(p.items.len() as int) =~= all_writes(p));
    assert(done.take(k).push(done[k]) =~= done.take(k + 1));
    lemma_writes_push(done.take(k), done[k]);
    if stage is Finished {
        assert(done.take(k + 1).push(done[k + 1]) =~= done);
        lemma_writes_push(done.take(k + 1), done[k + 1]);
    } else {
        assert(done.take(k + 1) =~= done);
    }
}

/// A run that is over has done it all: every image of the plan was written, in the order of the
/// plan, and the target slot was made active, unless that was not wanted.
pub proof fn law_finished_run_is_complete(p: PlanView, opts: Options, events: Seq<EventView>)
    requires
        p.items.len() <= usize::MAX,
        !opts.dry_run,
        trace(p, opts, events) matches Ok((stage, _)) && stage == Stage::Finished,
    ensures
        writes((trace(p, opts, events)->Ok_0).1) == all_writes(p),
        !opts.no_switch ==> (trace(p, opts, events)->Ok_0).1.contains(
            WorkView::Call(bootctl::set_active_slot_spec(p.target)),
        ),
{
    lemma_trace(p, opts, events);
    let done = (trace(p, opts, events)->Ok_0).1;
    assert(all_writes(p).take(p.items.len() as int) =~= all_writes(p));
    if !opts.no_switch {
        assert(done[done.len() - 2] is Call);
    }
}

/// Every write of a run is that of an item of the plan: its image goes to its device.
pub proof fn law_writes_are_planned(p: PlanView, opts: Options, events: Seq<EventView>, k: int)
    requires
        p.items.len() <= usize::MAX,
        trace(p, opts, events) matches Ok((_, done)) && 0 <= k < done.len() && done[k] is Write,
    ensures
        all_writes(p).contains((trace(p, opts, events)->Ok_0).1[k]),
{
    lemma_trace(p, opts, events);
    let (stage, done) = trace(p, opts, events)->Ok_0;
    let ok = |w: WorkView| w is Write;
    assert(ok(done[k]));
    done.lemma_filter_contains(ok, k);
    let i = choose|i: int| 0 <= i < writes(done).len() && writes(done)[i] == done[k];
    assert(writes(done).contains(done[k]));
    assert(all_writes(p)[i] == done[k]);
}

/// An image is written only after its device was found to exist and to be large enough.
pub proof fn law_write_is_checked(
    p: PlanView,
    opts: Options,
    stage: Stage,
    event: EventView,
    i: usize,
    bytes: u64,
)
    requires
        next_spec(p, opts, stage, event) matches Ok(said) && said.1 == Stage::Writing(i, bytes),
    ensures
        stage == Stage::Measuring(i),
        event matches EventView::Sizes { image_len, part_len } && image_len == bytes && image_len
            <= part_len,
        !opts.dry_run,
{
}

/// An image is measured only after its device was found to exist.
pub proof fn law_measure_is_checked(
    p: PlanView,
    opts: Options,
    stage: Stage,
    event: EventView,
    i: usize,
)
    requires
        next_spec(p, opts, stage, event) matches Ok(said) && said.1 == Stage::Measuring(i),
    ensures
        stage == Stage::Checking(i),
        event == EventView::Present(true),
{
}

/// The event that a stage waits for, with a good outcome.
pub open spec fn good(stage: Stage, event: EventView) -> bool {
    match stage {
        Stage::Checking(_) => event == EventView::Present(true),
        Stage::Measuring(_) => event matches EventView::Sizes { image_len, part_len } && image_len
            <= part_len,
        Stage::Writing(_, _) => event is Written,
        Stage::Switching => event matches EventView::Exited { success, .. } && success,
        Stage::Finished => false,
    }
}

/// How much of a run is left.
pub open spec fn left(p: PlanView, stage: Stage) -> int {
    match stage {
        Stage::Checking(i) => 3 * (p.items.len() - i) + 2,
        Stage::Measuring(i) => 3 * (p.items.len() - i) + 1,
        Stage::Writing(i, _) => 3 * (p.items.len() - i),
        Stage::Switching => 1,
        Stage::Finished => 0,
    }
}

/// Good outcomes carry a run on: it takes no error, and comes nearer to its end.
pub proof fn law_good_outcomes_progress(
    p: PlanView,
    opts: Options,
    events: Seq<EventView>,
    event: EventView,
)
    requires
        p.items.len() <= usize::MAX,
        trace(p, opts, events) matches Ok((stage, _)) && good(stage, event),
    ensures
        trace(p, opts, events.push(event)) matches Ok((after, _)) && 0 <= left(p, after) < left(
            p,
            (trace(p, opts, events)->Ok_0).0,
        ),
{
    lemma_trace(p, opts, events);
    assert(events.push(event).drop_last() =~= events);
    lemma_trace(p, opts, events.push(event));
}

/// A refusal ends a run: whatever is reported later, it asks for nothing more.
pub proof fn law_error_is_final(
    p: PlanView,
    opts: Options,
    events: Seq<EventView>,
    later: Seq<EventView>,
)
    requires
        trace(p, opts, events) is Err,
    ensures
        trace(p, opts, events + later) == trace(p, opts, events),
    decreases later.len(),
{
    if later.len() == 0 {
        assert(events + later =~= events);
    } else {
        law_error_is_final(p, opts, events, later.drop_last());
        assert((events + later).drop_last() =~= events + later.drop_last());
    }
}

// ---------------------------------------------------------------------------------------
// Laws of what a plan holds
// ---------------------------------------------------------------------------------------

/// The item of image file `f` in `dir` for partition `part` of slot `target`: the file, the
/// partition, and the device with the partition's label, which ends in `_a` for slot 0 and in
/// `_b` for another.
pub open spec fn image_item(dir: Seq<char>, f: Seq<char>, part: Seq<char>, target: usize) -> Item {
    Item {
        image: path::join_spec(dir, f),
        part,
        dev: "/dev/disk/by-partlabel/"@ + part + (if target == 0 {
            seq!['_', 'a']
        } else {
            seq!['_', 'b']
        }),
    }
}

/// Whether `f` is the name of an image file of partition `part`.
pub open spec fn is_image_of(f: Seq<char>, part: Seq<char>) -> bool {
    f == part || f == part + ".img"@
}

proof fn lemma_item_of(dir: Seq<char>, target: usize, f: Seq<char>, part: Seq<char>)
    requires
        flash::in_chain(part),
        is_image_of(f, part),
    ensures
        item_of(dir, target, Some(f)) == Some(image_item(dir, f, part, target)),
{
    flash::law_image_named_by_partition(f, part);
    let i = choose|i: int| 0 <= i < 9 && #[trigger] flash::chain(i) == part;
    flash::law_chain_plain(i);
    slot::law_device_text(part, target);
}

proof fn lemma_listed_add(
    dir: Seq<char>,
    target: usize,
    a: Seq<Option<Seq<char>>>,
    b: Seq<Option<Seq<char>>>,
)
    ensures
        listed(dir, target, a + b) == listed(dir, target, a) + listed(dir, target, b),
    decreases b.len(),
{
    if b.len() == 0 {
        assert(a + b =~= a);
        assert(listed(dir, target, a) + listed(dir, target, b) =~= listed(dir, target, a));
    } else {
        lemma_listed_add(dir, target, a, b.drop_last());
        assert((a + b).drop_last() =~= a + b.drop_last());
        assert((a + b).last() == b.last());
        assert(listed(dir, target, a + b) =~= listed(dir, target, a) + listed(dir, target, b));
    }
}

proof fn lemma_listed_one(dir: Seq<char>, target: usize, name: Option<Seq<char>>)
    ensures
        listed(dir, target, seq![name]) == match item_of(dir, target, name) {
            Some(item) => seq![item],
            None => Seq::empty(),
        },
{
    reveal_with_fuel(listed, 2);
    let one = seq![name];
    assert(one.drop_last() =~= Seq::<Option<Seq<char>>>::empty());
    assert(one.last() == name);
    assert(listed(dir, target, one) =~= match item_of(dir, target, name) {
        Some(item) => seq![item],
        None => Seq::empty(),
    });
}

/// Every image of the boot chain in a listing is planned, on the device of its partition in the
/// target slot.
pub proof fn law_every_image_is_planned(
    dir: Seq<char>,
    target: usize,
    names: Seq<Option<Seq<char>>>,
    k: int,
    f: Seq<char>,
    part: Seq<char>,
)
    requires
        0 <= k < names.len(),
        names[k] == Some(f),
        flash::in_chain(part),
        is_image_of(f, part),
    ensures
        plan_items(dir, target, names).contains(image_item(dir, f, part, target)),
{
    let item = image_item(dir, f, part, target);
    let head = names.take(k);
    let tail = names.skip(k + 1);
    assert(names =~= head + seq![names[k]] + tail);
    lemma_listed_add(dir, target, head + seq![names[k]], tail);
    lemma_listed_add(dir, target, head, seq![names[k]]);
    lemma_listed_one(dir, target, names[k]);
    lemma_item_of(dir, target, f, part);
    let all = listed(dir, target, names);
    assert(all[listed(dir, target, head).len() as int] == item);
    law_plan_is_complete(dir, target, names);
    all.to_multiset_ensures();
    plan_items(dir, target, names).to_multiset_ensures();
    assert(all.contains(item));
    assert(plan_items(dir, target, names).to_multiset().count(item) > 0);
}

proof fn lemma_item_is_listed(
    dir: Seq<char>,
    target: usize,
    names: Seq<Option<Seq<char>>>,
    item: Item,
) -> (k: int)
    requires
        listed(dir, target, names).contains(item),
    ensures
        0 <= k < names.len(),
        item_of(dir, target, names[k]) == Some(item),
    decreases names.len(),
{
    let n = names.len() - 1;
    let before = listed(dir, target, names.drop_last());
    if item_of(dir, target, names.last()) == Some(item) {
        n
    } else {
        let i = choose|i: int| 0 <= i < listed(dir, target, names).len() && listed(
            dir,
            target,
            names,
        )[i] == item;
        assert(before[i] == item);
        lemma_item_is_listed(dir, target, names.drop_last(), item)
    }
}

/// Nothing else is planned: every item is for an image file that the listing names.
pub proof fn law_every_item_is_listed(
    dir: Seq<char>,
    target: usize,
    names: Seq<Option<Seq<char>>>,
    i: int,
)
    requires
        0 <= i < plan_items(dir, target, names).len(),
    ensures
        ({
            let item = plan_items(dir, target, names)[i];
            &&& flash::in_chain(item.part)
            &&& exists|f: Seq<char>| #[trigger]
                names.contains(Some(f)) && is_image_of(f, item.part) && item == image_item(
                    dir,
                    f,
                    item.part,
                    target,
                )
        }),
{
    let item = plan_items(dir, target, names)[i];
    let all = listed(dir, target, names);
    lemma_by_chain(all, 9);
    assert(all.contains(by_chain(all, 9)[i]));
    let k = lemma_item_is_listed(dir, target, names, item);
    let f = names[k]->0;
    flash::law_image_named_by_partition(f, item.part);
    lemma_item_of(dir, target, f, item.part);
    assert(names.contains(Some(f)));
}

/// The plan for a listing of one name: one item for an image file of the boot chain, and none for
/// any other name, for a name that is not Unicode, or for no name at all.
pub proof fn law_plan_of_one_name(dir: Seq<char>, target: usize, f: Seq<char>, part: Seq<char>)
    ensures
        plan_items(dir, target, Seq::empty()) == Seq::<Item>::empty(),
        plan_items(dir, target, seq![None]) == Seq::<Item>::empty(),
        flash::in_chain(part) && is_image_of(f, part) ==> plan_items(dir, target, seq![Some(f)])
            == seq![image_item(dir, f, part, target)],
        (forall|p: Seq<char>| #[trigger] flash::in_chain(p) ==> !is_image_of(f, p)) ==> plan_items(
            dir,
            target,
            seq![Some(f)],
        ) == Seq::<Item>::empty(),
{
    let none = Seq::<Option<Seq<char>>>::empty();
    law_plan_is_complete(dir, target, none);
    law_plan_is_complete(dir, target, seq![None]);
    law_plan_is_complete(dir, target, seq![Some(f)]);
    lemma_listed_one(dir, target, None);
    lemma_listed_one(dir, target, Some(f));
    assert(plan_items(dir, target, none) =~= Seq::<Item>::empty());
    assert(plan_items(dir, target, seq![None]) =~= Seq::<Item>::empty());
    if flash::in_chain(part) && is_image_of(f, part) {
        lemma_item_of(dir, target, f, part);
        law_every_image_is_planned(dir, target, seq![Some(f)], 0, f, part);
        let all = plan_items(dir, target, seq![Some(f)]);
        assert(all =~= seq![image_item(dir, f, part, target)]);
    } else if forall|p: Seq<char>| #[trigger] flash::in_chain(p) ==> !is_image_of(f, p) {
        if let Some(p) = flash::image_to_partition_spec(f) {
            flash::law_only_chain_flashed(f);
            flash::law_image_named_by_partition(f, p);
        }
        assert(plan_items(dir, target, seq![Some(f)]) =~= Seq::<Item>::empty());
    }
}

/// The plan for two listings, one behind the other, holds what the plans for each hold: every item
/// as often, and for each partition those of the first before those of the second.
pub proof fn law_plan_of_two_listings(
    dir: Seq<char>,
    target: usize,
    a: Seq<Option<Seq<char>>>,
    b: Seq<Option<Seq<char>>>,
    m: int,
)
    requires
        0 <= m < 9,
    ensures
        plan_items(dir, target, a + b).to_multiset() == plan_items(dir, target, a).to_multiset().add(
            plan_items(dir, target, b).to_multiset(),
        ),
        of_part(plan_items(dir, target, a + b), flash::chain(m)) == of_part(
            plan_items(dir, target, a),
            flash::chain(m),
        ) + of_part(plan_items(dir, target, b), flash::chain(m)),
{
    let la = listed(dir, target, a);
    let lb = listed(dir, target, b);
    lemma_listed_add(dir, target, a, b);
    law_plan_is_complete(dir, target, a);
    law_plan_is_complete(dir, target, b);
    law_plan_is_complete(dir, target, a + b);
    vstd::seq_lib::lemma_multiset_commutative(la, lb);
    law_plan_keeps_listing_order(dir, target, a, m);
    law_plan_keeps_listing_order(dir, target, b, m);
    law_plan_keeps_listing_order(dir, target, a + b, m);
    let part = flash::chain(m);
    Seq::filter_distributes_over_add(la, lb, |item: Item| item.part == part);
}

/// A list of names and a list of items are viewed entry by entry, with nothing left out.
pub proof fn law_lists_are_viewed_whole(
    names: Seq<Option<String>>,
    items: Seq<(String, &'static str, String)>,
    i: int,
)
    ensures
        names_view(names).len() == names.len(),
        items_view(items).len() == items.len(),
        0 <= i < names.len() ==> names_view(names)[i] == match names[i] {
            Some(name) => Some(name@),
            None => None,
        },
        0 <= i < items.len() ==> items_view(items)[i].image == items[i].0@ && items_view(
            items,
        )[i].part == items[i].1@ && items_view(items)[i].dev == items[i].2@,
{
}

// ---------------------------------------------------------------------------------------
// Laws of the steps
// ---------------------------------------------------------------------------------------

/// The stage after item `i` is done: the next item, or what follows the last.
pub open spec fn stage_after(p: PlanView, opts: Options, i: usize) -> Stage {
    if i + 1 < p.items.len() {
        Stage::Checking((i + 1) as usize)
    } else if opts.no_switch || opts.dry_run {
        Stage::Finished
    } else {
        Stage::Switching
    }
}

/// A run goes through the items of its plan one by one, and leaves none out, dry or not: it begins
/// with the first, checks each for its device and measures it, writes it unless the run is dry,
/// and goes on to the next; after the last comes the switch, unless the run is dry or the switch
/// is not wanted. A plan without items is refused.
pub proof fn law_items_come_one_by_one(
    p: PlanView,
    opts: Options,
    i: usize,
    image_len: u64,
    part_len: u64,
)
    requires
        p.items.len() <= usize::MAX,
    ensures
        p.items.len() == 0 ==> run_spec(p, opts) == Err::<(Seq<char>, Stage), error::ErrorView>(
            error::ErrorView::NoImages,
        ),
        p.items.len() > 0 ==> (run_spec(p, opts) matches Ok(said) && said.1 == Stage::Checking(0)),
        i < p.items.len() ==> next_spec(p, opts, Stage::Checking(i), EventView::Present(true))
            == Ok::<(Seq<char>, Stage), error::ErrorView>((Seq::empty(), Stage::Measuring(i))),
        i < p.items.len() && image_len <= part_len && !opts.dry_run ==> next_spec(
            p,
            opts,
            Stage::Measuring(i),
            EventView::Sizes { image_len, part_len },
        ) == Ok::<(Seq<char>, Stage), error::ErrorView>(
            (Seq::empty(), Stage::Writing(i, image_len)),
        ),
        i < p.items.len() && image_len <= part_len && opts.dry_run ==> (next_spec(
            p,
            opts,
            Stage::Measuring(i),
            EventView::Sizes { image_len, part_len },
        ) matches Ok(said) && said.1 == stage_after(p, opts, i)),
        i < p.items.len() ==> (next_spec(
            p,
            opts,
            Stage::Writing(i, image_len),
            EventView::Written,
        ) matches Ok(said) && said.1 == stage_after(p, opts, i)),
{
}

/// A run is refused, dry or not, where a device is missing, an image is larger than its device,
/// or the switch fails, and the refusal names them.
pub proof fn law_bad_outcomes_are_refused(
    p: PlanView,
    opts: Options,
    i: usize,
    image_len: u64,
    part_len: u64,
    status: Seq<char>,
)
    requires
        i < p.items.len(),
    ensures
        next_spec(p, opts, Stage::Checking(i), EventView::Present(false)) == Err::<
            (Seq<char>, Stage),
            error::ErrorView,
        >(error::ErrorView::DeviceMissing { dev: p.items[i as int].dev }),
        image_len > part_len ==> next_spec(
            p,
            opts,
            Stage::Measuring(i),
            EventView::Sizes { image_len, part_len },
        ) == Err::<(Seq<char>, Stage), error::ErrorView>(
            error::ErrorView::ImageTooLarge {
                image: p.items[i as int].image,
                image_len,
                dev: p.items[i as int].dev,
                part_len,
            },
        ),
        next_spec(
            p,
            opts,
            Stage::Switching,
            EventView::Exited { success: false, status },
        ) matches Err(error::ErrorView::ToolFailed { command, status: ended }) && ended == status
            && command == "pixel-bootctl"@ + seq![' '] + "set-active-slot"@ + seq![
            ' ',
            if p.target == 0 {
                'a'
            } else {
                'b'
            },
        ],
{
    bootctl::law_commands(p.target);
}

/// An event that a stage does not wait for is out of step; a run that is over waits for none.
pub proof fn law_other_events_are_out_of_step(
    p: PlanView,
    opts: Options,
    stage: Stage,
    event: EventView,
)
    requires
        match stage {
            Stage::Checking(i) => !(event is Present) || i >= p.items.len(),
            Stage::Measuring(i) => !(event is Sizes) || i >= p.items.len(),
            Stage::Writing(i, _) => !(event is Written) || i >= p.items.len(),
            Stage::Switching => !(event is Exited),
            Stage::Finished => true,
        },
    ensures
        next_spec(p, opts, stage, event) == Err::<(Seq<char>, Stage), error::ErrorView>(
            error::ErrorView::OutOfStep,
        ),
{
}

/// The work of a stage is on the item of that stage: its device is checked, its image and its
/// device are measured, its image is written to its device. The switch is to the target.
pub proof fn law_work_is_on_the_item(p: PlanView, i: usize, bytes: u64)
    requires
        i < p.items.len(),
    ensures
        work_at(p, Stage::Checking(i)) == (WorkView::Check { dev: p.items[i as int].dev }),
        work_at(p, Stage::Measuring(i)) == (WorkView::Measure {
            image: p.items[i as int].image,
            dev: p.items[i as int].dev,
        }),
        work_at(p, Stage::Writing(i, bytes)) == (WorkView::Write {
            image: p.items[i as int].image,
            dev: p.items[i as int].dev,
        }),
        work_at(p, Stage::Switching) == WorkView::Call(bootctl::set_active_slot_spec(p.target)),
        work_at(p, Stage::Finished) is Nothing,
{
}

/// A run announces both slots and the number of images, and whether it is dry.
pub proof fn law_run_is_announced(p: PlanView, opts: Options)
    requires
        p.items.len() > 0,
    ensures
        run_spec(p, opts) matches Ok(said) && said.0 == "updating slot "@ + seq![
            if p.current == 0 {
                'a'
            } else {
                'b'
            },
        ] + " -> "@ + seq![
            if p.target == 0 {
                'a'
            } else {
                'b'
            },
        ] + " ("@ + text::decimal_spec(p.items.len()) + " image(s))"@ + (if opts.dry_run {
            " [dry-run]\n"@
        } else {
            "\n"@
        }),
{
}

/// The report on an item: its partition, its device and its size, as flashed or, in a dry run, as
/// what would be.
pub open spec fn item_line(item: Item, dry_run: bool, bytes: u64) -> Seq<char> {
    let what = item.part + " -> "@ + item.dev + " ("@ + text::decimal_spec(bytes as nat)
        + " bytes)\n"@;
    if dry_run {
        "  would flash "@ + what
    } else {
        "  flashed "@ + what
    }
}

/// What is said when an item is done: the report on it, and behind the last item, where there is
/// no switch, why there is none.
pub proof fn law_items_are_reported(p: PlanView, opts: Options, i: usize, len: u64, part_len: u64)
    requires
        i < p.items.len(),
    ensures
        ({
            let item = p.items[i as int];
            let line = item_line(item, opts.dry_run, len);
            let last = i + 1 == p.items.len();
            let said = line + (if last && opts.no_switch {
                "--no-switch: leaving active slot unchanged\n"@
            } else if last && opts.dry_run {
                "would set active slot -> "@ + seq![
                    if p.target == 0 {
                        'a'
                    } else {
                        'b'
                    },
                ] + " via pixel-bootctl (rollback-safe: active, not successful)\n"@
            } else {
                Seq::empty()
            });
            &&& next_spec(p, opts, Stage::Writing(i, len), EventView::Written) matches Ok(then)
                && then.0 == said
            &&& opts.dry_run && len <= part_len ==> (next_spec(
                p,
                opts,
                Stage::Measuring(i),
                EventView::Sizes { image_len: len, part_len },
            ) matches Ok(then) && then.0 == said)
        }),
{
    let item = p.items[i as int];
    let line = item_line(item, opts.dry_run, len);
    assert(item_report(item, opts, len) =~= line);
    assert(line + Seq::<char>::empty() =~= line);
}

/// A switch that succeeded ends the run, with a report that names the new slot and the one that
/// the bootloader would roll back to.
pub proof fn law_switch_ends_run(p: PlanView, opts: Options, status: Seq<char>)
    ensures
        next_spec(
            p,
            opts,
            Stage::Switching,
            EventView::Exited { success: true, status },
        ) matches Ok(said) && said.1 == Stage::Finished && said.0 == "active slot set to "@ + seq![
            if p.target == 0 {
                'a'
            } else {
                'b'
            },
        ] + " (rollback-safe: marked active, NOT successful).\n"@
            + "reboot to apply. After a confirmed-good boot, run `pixel-ota confirm` (or let the boot-success service) to commit it — otherwise the bootloader rolls back to "@
            + seq![
            if p.current == 0 {
                'a'
            } else {
                'b'
            },
        ] + ".\n"@,
{
}

/// A step that is right says the text, stands at the stage, and asks for the work of that stage.
pub proof fn law_step_asks_for_work(p: PlanView, step: Step, said: (Seq<char>, Stage))
    ensures
        step_is(p, step, said) <==> step.say@ == said.0 && step.stage == said.1 && step.work@
            == work_at(p, step.stage),
{
}

/// A plan, an event and work are viewed as they are: with their own slots, items, sizes, outcomes
/// and texts.
pub proof fn law_values_are_viewed_as_they_are(p: Plan, event: Event, work: Work)
    ensures
        p@.current == p.current && p@.target == p.target && p@.items == items_view(p.items@),
        match event {
            Event::Present(present) => event@ == EventView::Present(present),
            Event::Sizes { image_len: i, part_len: n } => event@ == (EventView::Sizes {
                image_len: i,
                part_len: n,
            }),
            Event::Written => event@ is Written,
            Event::Exited { success: ok, status: s } => event@ == (EventView::Exited {
                success: ok,
                status: s@,
            }),
        },
        match work {
            Work::Check { dev: d } => work@ == (WorkView::Check { dev: d@ }),
            Work::Measure { image: i, dev: d } => work@ == (WorkView::Measure {
                image: i@,
                dev: d@,
            }),
            Work::Write { image: i, dev: d } => work@ == (WorkView::Write { image: i@, dev: d@ }),
            Work::Call(inv) => work@ == WorkView::Call(inv@),
            Work::Nothing => work@ is Nothing,
        },
{
}

} // verus!
