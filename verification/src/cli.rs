//! The commands of the updater: what is asked for, and what is reported.

use vstd::prelude::*;
use vstd::string::*;

use crate::error;
use crate::error::{Failure, OtaError};
use crate::slot;
use crate::update;
use crate::update::Plan;

verus! {

/// The slot that a letter asks for, in either case.
pub open spec fn slot_of_letter(c: char) -> Option<usize> {
    if c == 'a' || c == 'A' {
        Some(0usize)
    } else if c == 'b' || c == 'B' {
        Some(1usize)
    } else {
        None
    }
}

/// The slot to update: the one asked for, else the inactive one.
pub fn target_slot(current: usize, override_letter: Option<char>) -> (res: Result<usize, OtaError>)
    requires
        override_letter is None ==> current < usize::MAX,
    ensures
        match override_letter {
            None => res == Ok::<usize, OtaError>(slot::inactive_spec(current)),
            Some(c) => match slot_of_letter(c) {
                Some(s) => res == Ok::<usize, OtaError>(s),
                None => res == Err::<usize, OtaError>(OtaError::BadSlot),
            },
        },
{
    match override_letter {
        None => Ok(slot::inactive(current)),
        Some(c) => if c == 'a' || c == 'A' {
            Ok(0)
        } else if c == 'b' || c == 'B' {
            Ok(1)
        } else {
            Err(OtaError::BadSlot)
        },
    }
}

/// A slot's letter as a capital.
pub open spec fn capital(slot: usize) -> Seq<char> {
    if slot == 0 {
        "A"@
    } else {
        "B"@
    }
}

/// The report on the slots.
pub open spec fn status_spec(current: usize) -> Seq<char> {
    "current slot:  "@ + capital(current) + "\ninactive slot: "@ + capital(
        slot::inactive_spec(current),
    ) + "\n"@
}

fn capital_text(slot: usize) -> (r: &'static str)
    ensures
        r@ == capital(slot),
{
    if slot == 0 {
        "A"
    } else {
        "B"
    }
}

/// Reports the current slot and the inactive one, from what the kernel shows.
pub fn cmd_status(bootconfig: Option<&str>, cmdline: Option<&str>) -> (res: Result<
    String,
    OtaError,
>)
    ensures
        match (slot::slot_in(bootconfig), slot::slot_in(cmdline)) {
            (Some(s), _) => res matches Ok(r) && r@ == status_spec(s),
            (None, Some(s)) => res matches Ok(r) && r@ == status_spec(s),
            (None, None) => res == Err::<String, OtaError>(OtaError::SlotUnknown),
        },
{
    match slot::current(bootconfig, cmdline) {
        Err(e) => Err(e),
        Ok(s) => {
            let mut r: String = "current slot:  ".to_owned();
            r.append(capital_text(s));
            r.append("\ninactive slot: ");
            r.append(capital_text(slot::inactive(s)));
            r.append("\n");
            Ok(r)
        },
    }
}

/// The running slot, from what the kernel shows.
pub open spec fn running(bootconfig: Option<&str>, cmdline: Option<&str>) -> Option<usize> {
    match slot::slot_in(bootconfig) {
        Some(s) => Some(s),
        None => slot::slot_in(cmdline),
    }
}

/// The slot to update, from the running slot and the letter asked for.
pub open spec fn wanted(current: usize, override_letter: Option<char>) -> Option<usize> {
    match override_letter {
        None => Some(slot::inactive_spec(current)),
        Some(c) => slot_of_letter(c),
    }
}

/// What comes of a request to update.
pub open spec fn update_spec<E>(
    image_dir: Seq<char>,
    listing: Result<Vec<Option<String>>, E>,
    current: Option<usize>,
    override_letter: Option<char>,
) -> Result<update::PlanView, error::FailureView<E>> {
    match current {
        None => Err(error::FailureView::Ota(error::ErrorView::SlotUnknown)),
        Some(current) => match wanted(current, override_letter) {
            None => Err(error::FailureView::Ota(error::ErrorView::BadSlot)),
            Some(target) => if target == current {
                Err(error::FailureView::Ota(error::ErrorView::ActiveSlot { slot: current }))
            } else {
                match listing {
                    Err(e) => Err(error::FailureView::Io(e)),
                    Ok(names) => Ok(
                        update::PlanView {
                            current,
                            target,
                            items: update::plan_items(
                                image_dir,
                                target,
                                update::names_view(names@),
                            ),
                        },
                    ),
                }
            },
        },
    }
}

/// Plans an update: finds the running slot, chooses the target, and plans what to flash on it
/// from the listing of the image directory.
pub fn cmd_update<E>(
    image_dir: &str,
    listing: Result<Vec<Option<String>>, E>,
    bootconfig: Option<&str>,
    cmdline: Option<&str>,
    slot_override: Option<char>,
) -> (res: Result<Plan, Failure<E>>)
    ensures
        match (
            res,
            update_spec(image_dir@, listing, running(bootconfig, cmdline), slot_override),
        ) {
            (Ok(p), Ok(v)) => p@ == v,
            (Err(f), Err(v)) => f@ == v,
            _ => false,
        },
{
    let current: usize = match slot::current(bootconfig, cmdline) {
        Ok(current) => current,
        Err(e) => return Err(Failure::Ota(e)),
    };
    let target: usize = match target_slot(current, slot_override) {
        Ok(target) => target,
        Err(e) => return Err(Failure::Ota(e)),
    };
    update::plan(image_dir, listing, current, target)
}

/// Without an override the target is the inactive slot, and an update is never refused for its
/// slot.
pub proof fn law_default_target_is_inactive<E>(
    image_dir: Seq<char>,
    listing: Result<Vec<Option<String>>, E>,
    current: usize,
)
    requires
        current < 2,
        listing is Ok,
    ensures
        update_spec(image_dir, listing, Some(current), None) matches Ok(p) && p.target
            == slot::inactive_spec(current) && p.target != current,
{
    slot::law_inactive_is_other(current);
}

/// An update whose target is the running slot is refused, whatever the image directory holds;
/// and a plan flashes no device of the running slot.
pub proof fn law_running_slot_is_spared<E>(
    image_dir: Seq<char>,
    listing: Result<Vec<Option<String>>, E>,
    current: usize,
    override_letter: Option<char>,
)
    requires
        current < 2,
    ensures
        wanted(current, override_letter) == Some(current) ==> update_spec(
            image_dir,
            listing,
            Some(current),
            override_letter,
        ) == Err::<update::PlanView, error::FailureView<E>>(
            error::FailureView::Ota(error::ErrorView::ActiveSlot { slot: current }),
        ),
        update_spec(image_dir, listing, Some(current), override_letter) matches Ok(p) ==> p.target
            == slot::inactive_spec(current) && forall|i: int, part: Seq<char>|
            0 <= i < p.items.len() ==> (#[trigger] p.items[i]).dev
                != #[trigger] slot::partition_path_spec(part, current),
{
    slot::law_inactive_is_other(current);
    if let Ok(p) = update_spec(image_dir, listing, Some(current), override_letter) {
        assert forall|i: int, part: Seq<char>| 0 <= i < p.items.len() implies (
        #[trigger] p.items[i]).dev != #[trigger] slot::partition_path_spec(part, current) by {
            let names = update::names_view(listing->Ok_0@);
            update::law_plan_spares_other_slot(image_dir, p.target, names, i, part);
        }
    }
}

/// An update never writes to the running slot, whatever is reported while it is carried out.
pub proof fn law_update_never_writes_running_slot<E>(
    image_dir: Seq<char>,
    listing: Result<Vec<Option<String>>, E>,
    current: usize,
    override_letter: Option<char>,
    opts: update::Options,
    events: Seq<update::EventView>,
    k: int,
    part: Seq<char>,
)
    requires
        current < 2,
        update_spec(image_dir, listing, Some(current), override_letter) matches Ok(p)
            && p.items.len() <= usize::MAX && (update::trace(p, opts, events) matches Ok((_, done))
            && 0 <= k < done.len()),
    ensures
        ({
            let p = update_spec(image_dir, listing, Some(current), override_letter)->Ok_0;
            let done = (update::trace(p, opts, events)->Ok_0).1;
            done[k] matches update::WorkView::Write { dev, .. } ==> dev
                != slot::partition_path_spec(part, current)
        }),
{
    let p = update_spec(image_dir, listing, Some(current), override_letter)->Ok_0;
    let done = (update::trace(p, opts, events)->Ok_0).1;
    if done[k] is Write {
        update::law_writes_are_planned(p, opts, events, k);
        law_running_slot_is_spared(image_dir, listing, current, override_letter);
        let all = update::all_writes(p);
        let i = choose|i: int| 0 <= i < all.len() && all[i] == done[k];
        assert(p.items[i].dev != slot::partition_path_spec(part, current));
    }
}

/// A slot is asked for by its letter, in either case, and by nothing else.
pub proof fn law_letters_ask(c: char)
    ensures
        slot_of_letter(c) == Some(0usize) <==> c == 'a' || c == 'A',
        slot_of_letter(c) == Some(1usize) <==> c == 'b' || c == 'B',
        slot_of_letter(c) matches Some(s) ==> s < 2,
        wanted(0, Some(c)) == slot_of_letter(c) && wanted(1, Some(c)) == slot_of_letter(c),
        wanted(0, None) == Some(1usize) && wanted(1, None) == Some(0usize),
{
}

/// The boot configuration decides on the running slot, and the command line where that names
/// none.
pub proof fn law_bootconfig_decides(bootconfig: Option<&str>, cmdline: Option<&str>)
    ensures
        slot::slot_in(bootconfig) is Some ==> running(bootconfig, cmdline) == slot::slot_in(
            bootconfig,
        ),
        slot::slot_in(bootconfig) is None ==> running(bootconfig, cmdline) == slot::slot_in(
            cmdline,
        ),
{
}

/// The status names both slots, the running one first.
pub proof fn law_status_names_both(current: usize)
    requires
        current < 2,
    ensures
        status_spec(current) == "current slot:  "@ + (if current == 0 {
            seq!['A']
        } else {
            seq!['B']
        }) + "\ninactive slot: "@ + (if current == 0 {
            seq!['B']
        } else {
            seq!['A']
        }) + seq!['\n'],
{
    reveal_strlit("A");
    reveal_strlit("B");
    reveal_strlit("\n");
    assert("A"@ =~= seq!['A']);
    assert("B"@ =~= seq!['B']);
    assert("\n"@ =~= seq!['\n']);
    slot::law_letters(current);
}

/// An update is planned for the slot that is not running, with what the directory has for that
/// slot; it is so planned where no slot is asked for, or that one.
pub proof fn law_update_plans_other_slot<E>(
    image_dir: Seq<char>,
    names: Vec<Option<String>>,
    current: usize,
    override_letter: Option<char>,
)
    requires
        current < 2,
        override_letter matches Some(c) ==> if current == 0 {
            c == 'b' || c == 'B'
        } else {
            c == 'a' || c == 'A'
        },
    ensures
        update_spec(
            image_dir,
            Ok::<Vec<Option<String>>, E>(names),
            Some(current),
            override_letter,
        ) matches Ok(p) && p.current == current && p.target == 1 - current && p.items
            == update::plan_items(image_dir, (1 - current) as usize, update::names_view(names@)),
{
    slot::law_letters(current);
}

/// An update fails for the first thing that is amiss: the running slot is not known, the slot
/// asked for is none, it is the running one, or the directory cannot be listed.
pub proof fn law_update_refusals<E>(
    image_dir: Seq<char>,
    listing: Result<Vec<Option<String>>, E>,
    current: usize,
    c: char,
    e: E,
)
    requires
        current < 2,
    ensures
        update_spec(image_dir, listing, None, Some(c)) == Err::<
            update::PlanView,
            error::FailureView<E>,
        >(error::FailureView::Ota(error::ErrorView::SlotUnknown)),
        update_spec(image_dir, listing, None, None) == Err::<
            update::PlanView,
            error::FailureView<E>,
        >(error::FailureView::Ota(error::ErrorView::SlotUnknown)),
        c != 'a' && c != 'A' && c != 'b' && c != 'B' ==> update_spec(
            image_dir,
            listing,
            Some(current),
            Some(c),
        ) == Err::<update::PlanView, error::FailureView<E>>(
            error::FailureView::Ota(error::ErrorView::BadSlot),
        ),
        (current == 0 && (c == 'a' || c == 'A')) || (current == 1 && (c == 'b' || c == 'B'))
            ==> update_spec(image_dir, listing, Some(current), Some(c)) == Err::<
            update::PlanView,
            error::FailureView<E>,
        >(error::FailureView::Ota(error::ErrorView::ActiveSlot { slot: current })),
        (current == 0 && (c == 'b' || c == 'B')) || (current == 1 && (c == 'a' || c == 'A'))
            ==> update_spec(image_dir, Err(e), Some(current), Some(c)) == Err::<
            update::PlanView,
            error::FailureView<E>,
        >(error::FailureView::Io(e)),
        update_spec(image_dir, Err(e), Some(current), None) == Err::<
            update::PlanView,
            error::FailureView<E>,
        >(error::FailureView::Io(e)),
{
    slot::law_letters(current);
}

} // verus!
