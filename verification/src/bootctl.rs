//! Slot switch and commit, by commands of `pixel-bootctl`, the boot control tool.

use vstd::prelude::*;
use vstd::string::*;

use crate::error::OtaError;
use crate::error;
use crate::slot;
use crate::text;

verus! {

/// The boot control tool.
pub const BOOTCTL_BIN: &'static str = "pixel-bootctl";

/// A command to run.
#[derive(Debug)]
pub struct Invocation {
    /// The program.
    pub program: String,
    /// Its arguments, in order.
    pub args: Vec<String>,
}

/// A command, with its texts as sequences of characters.
#[verifier::ext_equal]
pub struct InvocationView {
    pub program: Seq<char>,
    pub args: Seq<Seq<char>>,
}

impl View for Invocation {
    type V = InvocationView;

    open spec fn view(&self) -> InvocationView {
        InvocationView { program: self.program@, args: text::texts(self.args@) }
    }
}

/// A command as one would type it: the program, a space, and the arguments with a space between
/// each two.
pub open spec fn command_line(inv: InvocationView) -> Seq<char> {
    inv.program + " "@ + text::unwords(inv.args)
}

/// The command that makes `slot` active.
pub open spec fn set_active_slot_spec(slot: usize) -> InvocationView {
    InvocationView {
        program: BOOTCTL_BIN@,
        args: seq!["set-active-slot"@, seq![slot::letter_spec(slot)]],
    }
}

/// The command that commits the running slot.
pub open spec fn mark_successful_spec() -> InvocationView {
    InvocationView { program: BOOTCTL_BIN@, args: seq!["mark-successful"@] }
}

/// `pixel-bootctl set-active-slot <a|b>`. Rollback-safe: the tool marks the slot active but not
/// successful, so a slot that never boots rolls back. `mark_successful` commits it.
pub fn set_active_slot(slot: usize) -> (inv: Invocation)
    ensures
        inv@ == set_active_slot_spec(slot),
{
    let mut args: Vec<String> = Vec::new();
    args.push("set-active-slot".to_owned());
    args.push(slot::letter_text(slot).to_owned());
    let inv: Invocation = Invocation { program: BOOTCTL_BIN.to_owned(), args };
    assert(inv@ =~= set_active_slot_spec(slot));
    inv
}

/// `pixel-bootctl mark-successful`: commits the running slot after a confirmed-good boot, so that
/// the bootloader stops counting down its retry budget and does not roll back.
pub fn mark_successful() -> (inv: Invocation)
    ensures
        inv@ == mark_successful_spec(),
{
    let mut args: Vec<String> = Vec::new();
    args.push("mark-successful".to_owned());
    let inv: Invocation = Invocation { program: BOOTCTL_BIN.to_owned(), args };
    assert(inv@ =~= mark_successful_spec());
    inv
}

/// Writes a command as one would type it.
pub fn shown(inv: &Invocation) -> (r: String)
    ensures
        r@ == command_line(inv@),
{
    let mut r: String = inv.program.clone();
    r.append(" ");
    let ghost start = r@;
    let ghost words = text::texts(inv.args@);
    let mut i: usize = 0;
    proof {
        reveal_strlit(" ");
        assert(" "@ =~= seq![' ']);
        assert(words.take(0) =~= Seq::<Seq<char>>::empty());
        assert(r@ =~= start + text::unwords(words.take(0)));
    }
    while i < inv.args.len()
        invariant
            i <= inv.args.len(),
            words == text::texts(inv.args@),
            " "@ == seq![' '],
            r@ == start + text::unwords(words.take(i as int)),
        decreases inv.args.len() - i,
    {
        let ghost longer = words.take(i + 1);
        assert(longer.drop_last() =~= words.take(i as int));
        assert(longer.last() == inv.args@[i as int]@);
        if i > 0 {
            r.append(" ");
        } else {
            assert(words.take(0) =~= Seq::<Seq<char>>::empty());
        }
        r.append(inv.args[i].as_str());
        assert(r@ =~= start + text::unwords(longer));
        i += 1;
    }
    assert(words.take(i as int) =~= words);
    r
}

/// Judges a command that ran, by whether it succeeded and how it ended.
pub fn finish(inv: &Invocation, success: bool, status: &str) -> (res: Result<(), OtaError>)
    ensures
        match res {
            Ok(_) => success,
            Err(e) => !success && e@ == (error::ErrorView::ToolFailed {
                command: command_line(inv@),
                status: status@,
            }),
        },
{
    if success {
        Ok(())
    } else {
        Err(OtaError::ToolFailed { command: shown(inv), status: status.to_owned() })
    }
}

/// The report of a boot control tool that could not be started, for the given reason.
pub fn not_started(reason: &str) -> (r: String)
    ensures
        r@ == "failed to run `"@ + BOOTCTL_BIN@ + "` (is it installed/on PATH?): "@ + reason@,
{
    let mut r: String = "failed to run `".to_owned();
    r.append(BOOTCTL_BIN);
    r.append("` (is it installed/on PATH?): ");
    r.append(reason);
    r
}

/// Switching to a slot does not commit it.
pub proof fn law_switch_does_not_commit(slot: usize)
    ensures
        set_active_slot_spec(slot) != mark_successful_spec(),
{
    assert(set_active_slot_spec(slot).args.len() == 2);
    assert(mark_successful_spec().args.len() == 1);
}

/// A command is shown as its program, a space, and its arguments, with a space between each two.
pub proof fn law_command_is_shown(program: Seq<char>, args: Seq<Seq<char>>, arg: Seq<char>)
    ensures
        command_line((InvocationView { program, args: Seq::empty() })) == program + seq![' '],
        command_line((InvocationView { program, args: seq![arg] })) == program + seq![' '] + arg,
        args.len() > 0 ==> command_line((InvocationView { program, args: args.push(arg) }))
            == command_line((InvocationView { program, args })) + seq![' '] + arg,
{
    reveal_strlit(" ");
    assert(" "@ =~= seq![' ']);
    let none = InvocationView { program, args: Seq::empty() };
    let one = InvocationView { program, args: seq![arg] };
    assert(text::unwords(Seq::empty()) =~= Seq::<char>::empty());
    assert(command_line(none) =~= program + seq![' ']);
    assert(command_line(one) =~= program + seq![' '] + arg);
    if args.len() > 0 {
        text::law_unwords_joins(args, seq![arg]);
        assert(args + seq![arg] =~= args.push(arg));
        assert(text::unwords(seq![arg]) == arg);
        assert(command_line((InvocationView { program, args: args.push(arg) })) =~= command_line(
            (InvocationView { program, args }),
        ) + seq![' '] + arg);
    }
}

/// The switch is asked of `pixel-bootctl` by the letter of the slot, the commit without one.
pub proof fn law_commands(slot: usize)
    ensures
        command_line(set_active_slot_spec(slot)) == "pixel-bootctl"@ + seq![' ']
            + "set-active-slot"@ + seq![
            ' ',
            if slot == 0 {
                'a'
            } else {
                'b'
            },
        ],
        set_active_slot_spec(slot).program == "pixel-bootctl"@,
        set_active_slot_spec(slot).args.len() == 2,
        command_line(mark_successful_spec()) == "pixel-bootctl"@ + seq![' '] + "mark-successful"@,
        mark_successful_spec().program == "pixel-bootctl"@,
        mark_successful_spec().args.len() == 1,
{
    let program = "pixel-bootctl"@;
    let word = "set-active-slot"@;
    let letter = seq![slot::letter_spec(slot)];
    law_command_is_shown(program, seq![word], letter);
    law_command_is_shown(program, seq![word], word);
    law_command_is_shown(program, Seq::empty(), "mark-successful"@);
    assert(seq![word].push(letter) =~= seq![word, letter]);
    assert(command_line(set_active_slot_spec(slot)) =~= program + seq![' '] + word + seq![
        ' ',
        slot::letter_spec(slot),
    ]);
}

/// A command is viewed as it is: its program, and its arguments one by one.
pub proof fn law_command_is_viewed_whole(inv: Invocation, i: int)
    ensures
        inv@.program == inv.program@,
        inv@.args.len() == inv.args@.len(),
        0 <= i < inv.args@.len() ==> inv@.args[i] == inv.args@[i]@,
{
}

} // verus!
