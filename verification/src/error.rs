//! What can go wrong, and how it is reported.

use vstd::prelude::*;
use vstd::string::*;

use crate::slot;
use crate::text;

verus! {

/// The class of an error.
#[derive(Debug, Clone, Copy, PartialEq, Eq, Structural)]
pub enum ErrorKind {
    /// Something that was looked for is not there.
    NotFound,
    /// A request that cannot be honoured.
    InvalidInput,
    /// Anything else.
    Other,
}

/// An update that cannot go on.
#[derive(Debug)]
pub enum OtaError {
    /// The target of an update is the running slot.
    ActiveSlot { slot: usize },
    /// A slot was asked for by a letter other than `a` and `b`.
    BadSlot,
    /// Neither the boot configuration nor the command line names the running slot.
    SlotUnknown,
    /// An image directory holds nothing to flash.
    NoImages,
    /// A partition of the target slot does not exist.
    DeviceMissing { dev: String },
    /// A boot image is larger than its partition.
    ImageTooLarge { image: String, image_len: u64, dev: String, part_len: u64 },
    /// A root image is larger than the root partition.
    RootfsTooLarge { image_len: u64, root_dev: String, part_len: u64 },
    /// There is no busybox to stage.
    BusyboxMissing { busybox: String },
    /// A staged image lies on the partition that it is to overwrite.
    StagedOnTarget { node: String },
    /// A root image is larger than what may be held in memory.
    OverBudget { image_len: u64, budget: u64, pct: u8 },
    /// The memory size is not known.
    MemTotalMissing,
    /// No mount holds a path.
    NoBackingMount { target: String },
    /// A command ran and failed.
    ToolFailed { command: String, status: String },
    /// A run was told of an event that it was not waiting for.
    OutOfStep,
}

/// An error, with its texts as sequences of characters.
pub enum ErrorView {
    ActiveSlot { slot: usize },
    BadSlot,
    SlotUnknown,
    NoImages,
    DeviceMissing { dev: Seq<char> },
    ImageTooLarge { image: Seq<char>, image_len: u64, dev: Seq<char>, part_len: u64 },
    RootfsTooLarge { image_len: u64, root_dev: Seq<char>, part_len: u64 },
    BusyboxMissing { busybox: Seq<char> },
    StagedOnTarget { node: Seq<char> },
    OverBudget { image_len: u64, budget: u64, pct: u8 },
    MemTotalMissing,
    NoBackingMount { target: Seq<char> },
    ToolFailed { command: Seq<char>, status: Seq<char> },
    OutOfStep,
}

impl View for OtaError {
    type V = ErrorView;

    open spec fn view(&self) -> ErrorView {
        match self {
            OtaError::ActiveSlot { slot } => ErrorView::ActiveSlot { slot: *slot },
            OtaError::BadSlot => ErrorView::BadSlot,
            OtaError::SlotUnknown => ErrorView::SlotUnknown,
            OtaError::NoImages => ErrorView::NoImages,
            OtaError::DeviceMissing { dev } => ErrorView::DeviceMissing { dev: dev@ },
            OtaError::ImageTooLarge { image, image_len, dev, part_len } =>
                ErrorView::ImageTooLarge {
                    image: image@,
                    image_len: *image_len,
                    dev: dev@,
                    part_len: *part_len,
                },
            OtaError::RootfsTooLarge { image_len, root_dev, part_len } =>
                ErrorView::RootfsTooLarge {
                    image_len: *image_len,
                    root_dev: root_dev@,
                    part_len: *part_len,
                },
            OtaError::BusyboxMissing { busybox } => ErrorView::BusyboxMissing {
                busybox: busybox@,
            },
            OtaError::StagedOnTarget { node } => ErrorView::StagedOnTarget { node: node@ },
            OtaError::OverBudget { image_len, budget, pct } => ErrorView::OverBudget {
                image_len: *image_len,
                budget: *budget,
                pct: *pct,
            },
            OtaError::MemTotalMissing => ErrorView::MemTotalMissing,
            OtaError::NoBackingMount { target } => ErrorView::NoBackingMount { target: target@ },
            OtaError::ToolFailed { command, status } => ErrorView::ToolFailed {
                command: command@,
                status: status@,
            },
            OtaError::OutOfStep => ErrorView::OutOfStep,
        }
    }
}

/// The class of each error.
pub open spec fn kind_spec(e: ErrorView) -> ErrorKind {
    match e {
        ErrorView::ActiveSlot { .. } => ErrorKind::InvalidInput,
        ErrorView::BadSlot => ErrorKind::InvalidInput,
        ErrorView::SlotUnknown => ErrorKind::NotFound,
        ErrorView::NoImages => ErrorKind::NotFound,
        ErrorView::DeviceMissing { .. } => ErrorKind::NotFound,
        ErrorView::ImageTooLarge { .. } => ErrorKind::InvalidInput,
        ErrorView::RootfsTooLarge { .. } => ErrorKind::InvalidInput,
        ErrorView::BusyboxMissing { .. } => ErrorKind::NotFound,
        ErrorView::StagedOnTarget { .. } => ErrorKind::InvalidInput,
        ErrorView::OverBudget { .. } => ErrorKind::InvalidInput,
        ErrorView::MemTotalMissing => ErrorKind::NotFound,
        ErrorView::NoBackingMount { .. } => ErrorKind::NotFound,
        ErrorView::ToolFailed { .. } => ErrorKind::Other,
        ErrorView::OutOfStep => ErrorKind::Other,
    }
}

/// The report of an error.
pub open spec fn message_spec(e: ErrorView) -> Seq<char> {
    match e {
        ErrorView::ActiveSlot { slot } => "refusing to flash the active slot ("@ + seq![
            slot::letter_spec(slot),
        ] + "); pixel-ota flashes the inactive slot"@,
        ErrorView::BadSlot => "slot must be a or b"@,
        ErrorView::SlotUnknown =>
            "could not determine current slot from androidboot.slot_suffix"@,
        ErrorView::NoImages => "no boot-chain images found in directory"@,
        ErrorView::DeviceMissing { dev } => "target device "@ + dev + " not found"@,
        ErrorView::ImageTooLarge { image, image_len, dev, part_len } => image + " ("@
            + text::decimal_spec(image_len as nat) + " bytes) does not fit "@ + dev + " ("@
            + text::decimal_spec(part_len as nat) + " bytes)"@,
        ErrorView::RootfsTooLarge { image_len, root_dev, part_len } => "image ("@
            + text::decimal_spec(image_len as nat) + " bytes) does not fit "@ + root_dev + " ("@
            + text::decimal_spec(part_len as nat) + " bytes)"@,
        ErrorView::BusyboxMissing { busybox } => "busybox not found at "@ + busybox,
        ErrorView::StagedOnTarget { node } => "staged image is on the target partition ("@ + node
            + "); stage it on a different partition (e.g. userdata)"@,
        ErrorView::OverBudget { image_len, budget, pct } => "image ("@ + text::decimal_spec(
            image_len as nat,
        ) + " bytes) exceeds the RAM staging budget ("@ + text::decimal_spec(budget as nat)
            + " bytes, "@ + text::decimal_spec(pct as nat)
            + "% of RAM); use --staged to flash from a persistent partition"@,
        ErrorView::MemTotalMissing => "MemTotal not found in /proc/meminfo"@,
        ErrorView::NoBackingMount { target } => "no backing mount found for "@ + target,
        ErrorView::ToolFailed { command, status } => "`"@ + command + "` exited with "@ + status,
        ErrorView::OutOfStep => "event out of step"@,
    }
}

impl OtaError {
    /// The class of the error.
    pub fn kind(&self) -> (k: ErrorKind)
        ensures
            k == kind_spec(self@),
    {
        match self {
            OtaError::ActiveSlot { .. } => ErrorKind::InvalidInput,
            OtaError::BadSlot => ErrorKind::InvalidInput,
            OtaError::SlotUnknown => ErrorKind::NotFound,
            OtaError::NoImages => ErrorKind::NotFound,
            OtaError::DeviceMissing { .. } => ErrorKind::NotFound,
            OtaError::ImageTooLarge { .. } => ErrorKind::InvalidInput,
            OtaError::RootfsTooLarge { .. } => ErrorKind::InvalidInput,
            OtaError::BusyboxMissing { .. } => ErrorKind::NotFound,
            OtaError::StagedOnTarget { .. } => ErrorKind::InvalidInput,
            OtaError::OverBudget { .. } => ErrorKind::InvalidInput,
            OtaError::MemTotalMissing => ErrorKind::NotFound,
            OtaError::NoBackingMount { .. } => ErrorKind::NotFound,
            OtaError::ToolFailed { .. } => ErrorKind::Other,
            OtaError::OutOfStep => ErrorKind::Other,
        }
    }

    /// The report of the error.
    pub fn message(&self) -> (r: String)
        ensures
            r@ == message_spec(self@),
    {
        match self {
            OtaError::ActiveSlot { slot } => {
                let mut r: String = "refusing to flash the active slot (".to_owned();
                r.append(slot::letter_text(*slot));
                r.append("); pixel-ota flashes the inactive slot");
                r
            },
            OtaError::BadSlot => "slot must be a or b".to_owned(),
            OtaError::SlotUnknown =>
                "could not determine current slot from androidboot.slot_suffix".to_owned(),
            OtaError::NoImages => "no boot-chain images found in directory".to_owned(),
            OtaError::DeviceMissing { dev } => {
                let mut r: String = "target device ".to_owned();
                r.append(dev.as_str());
                r.append(" not found");
                r
            },
            OtaError::ImageTooLarge { image, image_len, dev, part_len } => {
                let mut r: String = image.clone();
                r.append(" (");
                r.append(text::decimal(*image_len).as_str());
                r.append(" bytes) does not fit ");
                r.append(dev.as_str());
                r.append(" (");
                r.append(text::decimal(*part_len).as_str());
                r.append(" bytes)");
                r
            },
            OtaError::RootfsTooLarge { image_len, root_dev, part_len } => {
                let mut r: String = "image (".to_owned();
                r.append(text::decimal(*image_len).as_str());
                r.append(" bytes) does not fit ");
                r.append(root_dev.as_str());
                r.append(" (");
                r.append(text::decimal(*part_len).as_str());
                r.append(" bytes)");
                r
            },
            OtaError::BusyboxMissing { busybox } => {
                let mut r: String = "busybox not found at ".to_owned();
                r.append(busybox.as_str());
                r
            },
            OtaError::StagedOnTarget { node } => {
                let mut r: String = "staged image is on the target partition (".to_owned();
                r.append(node.as_str());
                r.append("); stage it on a different partition (e.g. userdata)");
                r
            },
            OtaError::OverBudget { image_len, budget, pct } => {
                let mut r: String = "image (".to_owned();
                r.append(text::decimal(*image_len).as_str());
                r.append(" bytes) exceeds the RAM staging budget (");
                r.append(text::decimal(*budget).as_str());
                r.append(" bytes, ");
                r.append(text::decimal(*pct as u64).as_str());
                r.append("% of RAM); use --staged to flash from a persistent partition");
                r
            },
            OtaError::MemTotalMissing => "MemTotal not found in /proc/meminfo".to_owned(),
            OtaError::NoBackingMount { target } => {
                let mut r: String = "no backing mount found for ".to_owned();
                r.append(target.as_str());
                r
            },
            OtaError::ToolFailed { command, status } => {
                let mut r: String = "`".to_owned();
                r.append(command.as_str());
                r.append("` exited with ");
                r.append(status.as_str());
                r
            },
            OtaError::OutOfStep => "event out of step".to_owned(),
        }
    }
}

/// Why a request that rests on outside work failed: by a rule of this library, or by what the
/// outside work reported.
#[derive(Debug)]
pub enum Failure<E> {
    /// A rule refused it.
    Ota(OtaError),
    /// The system reported it.
    Io(E),
}

/// A failure, with its texts as sequences of characters.
pub enum FailureView<E> {
    Ota(ErrorView),
    Io(E),
}

impl<E> View for Failure<E> {
    type V = FailureView<E>;

    open spec fn view(&self) -> FailureView<E> {
        match self {
            Failure::Ota(e) => FailureView::Ota(e@),
            Failure::Io(e) => FailureView::Io(*e),
        }
    }
}

/// What is looked for and not there is not found; a request that breaks a rule is invalid input;
/// a failure of a command, and an event out of step, is neither.
pub proof fn law_kinds(e: ErrorView)
    ensures
        kind_spec(e) == ErrorKind::NotFound <==> e is SlotUnknown || e is NoImages
            || e is DeviceMissing || e is BusyboxMissing || e is MemTotalMissing
            || e is NoBackingMount,
        kind_spec(e) == ErrorKind::Other <==> e is ToolFailed || e is OutOfStep,
{
}

/// A refusal for size names the image or says that there is one, and gives its size, the device,
/// and the size of the device, in this order.
pub proof fn law_size_refusals(
    image: Seq<char>,
    image_len: u64,
    dev: Seq<char>,
    part_len: u64,
    budget: u64,
    pct: u8,
)
    ensures
        ({
            let len = text::decimal_spec(image_len as nat);
            let tail = " bytes) does not fit "@ + dev + " ("@ + text::decimal_spec(part_len as nat)
                + " bytes)"@;
            &&& message_spec(ErrorView::ImageTooLarge { image, image_len, dev, part_len }) == image
                + " ("@ + len + tail
            &&& message_spec(ErrorView::RootfsTooLarge { image_len, root_dev: dev, part_len })
                == "image ("@ + len + tail
            &&& message_spec(ErrorView::OverBudget { image_len, budget, pct }) == "image ("@ + len
                + " bytes) exceeds the RAM staging budget ("@ + text::decimal_spec(budget as nat)
                + " bytes, "@ + text::decimal_spec(pct as nat)
                + "% of RAM); use --staged to flash from a persistent partition"@
        }),
{
    let len = text::decimal_spec(image_len as nat);
    let tail = " bytes) does not fit "@ + dev + " ("@ + text::decimal_spec(part_len as nat)
        + " bytes)"@;
    assert(message_spec(ErrorView::ImageTooLarge { image, image_len, dev, part_len }) =~= image
        + " ("@ + len + tail);
    assert(message_spec(ErrorView::RootfsTooLarge { image_len, root_dev: dev, part_len })
        =~= "image ("@ + len + tail);
}

/// A report names what it is about: the slot by its letter, the device, the program, the node,
/// the path, or the command and how it ended.
pub proof fn law_reports_name_their_subject(slot: usize, subject: Seq<char>, status: Seq<char>)
    ensures
        message_spec(ErrorView::ActiveSlot { slot }) == "refusing to flash the active slot ("@
            + seq![
            if slot == 0 {
                'a'
            } else {
                'b'
            },
        ] + "); pixel-ota flashes the inactive slot"@,
        message_spec(ErrorView::DeviceMissing { dev: subject }) == "target device "@ + subject
            + " not found"@,
        message_spec(ErrorView::BusyboxMissing { busybox: subject }) == "busybox not found at "@
            + subject,
        message_spec(ErrorView::StagedOnTarget { node: subject })
            == "staged image is on the target partition ("@ + subject
            + "); stage it on a different partition (e.g. userdata)"@,
        message_spec(ErrorView::NoBackingMount { target: subject })
            == "no backing mount found for "@ + subject,
        message_spec(ErrorView::ToolFailed { command: subject, status }) == "`"@ + subject
            + "` exited with "@ + status,
{
}

/// An error is viewed as it is, with its own slot, sizes and texts; a failure, as the error or the
/// report that it holds.
pub proof fn law_errors_are_viewed_as_they_are<E>(e: OtaError, f: Failure<E>)
    ensures
        match e {
            OtaError::ActiveSlot { slot: s } => e@ == (ErrorView::ActiveSlot { slot: s }),
            OtaError::BadSlot => e@ is BadSlot,
            OtaError::SlotUnknown => e@ is SlotUnknown,
            OtaError::NoImages => e@ is NoImages,
            OtaError::DeviceMissing { dev: d } => e@ == (ErrorView::DeviceMissing { dev: d@ }),
            OtaError::ImageTooLarge { image: i, image_len: n, dev: d, part_len: m } => e@ == (
            ErrorView::ImageTooLarge { image: i@, image_len: n, dev: d@, part_len: m }),
            OtaError::RootfsTooLarge { image_len: n, root_dev: d, part_len: m } => e@ == (
            ErrorView::RootfsTooLarge { image_len: n, root_dev: d@, part_len: m }),
            OtaError::BusyboxMissing { busybox: b } => e@ == (ErrorView::BusyboxMissing {
                busybox: b@,
            }),
            OtaError::StagedOnTarget { node: d } => e@ == (ErrorView::StagedOnTarget { node: d@ }),
            OtaError::OverBudget { image_len: n, budget: m, pct: p } => e@ == (
            ErrorView::OverBudget { image_len: n, budget: m, pct: p }),
            OtaError::MemTotalMissing => e@ is MemTotalMissing,
            OtaError::NoBackingMount { target: t } => e@ == (ErrorView::NoBackingMount {
                target: t@,
            }),
            OtaError::ToolFailed { command: c, status: s } => e@ == (ErrorView::ToolFailed {
                command: c@,
                status: s@,
            }),
            OtaError::OutOfStep => e@ is OutOfStep,
        },
        match f {
            Failure::Ota(e) => f@ == FailureView::<E>::Ota(e@),
            Failure::Io(e) => f@ == FailureView::<E>::Io(e),
        },
{
}

} // verus!
