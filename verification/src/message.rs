//! A one-line message in the status bar about what opening or saving did.
use vstd::prelude::*;
use vstd::string::StringExecFns;

verus! {

#[derive(Debug, PartialEq, Eq, Structural, Clone, Copy)]
pub enum MessageKind {
    FailedOpen,
    FailedSave,
    Saved,
}

/// The words that start a message of the given kind.
pub open spec fn message_label(kind: MessageKind) -> Seq<char> {
    match kind {
        MessageKind::FailedOpen => "failed to open: "@,
        MessageKind::FailedSave => "failed to save at: "@,
        MessageKind::Saved => "saved at: "@,
    }
}

#[derive(Debug)]
pub struct Message {
    info: String,
    kind: MessageKind,
}

impl Message {
    /// The detail: a path or what went wrong.
    pub closed spec fn spec_info(self) -> Seq<char> {
        self.info@
    }

    pub closed spec fn spec_kind(self) -> MessageKind {
        self.kind
    }

    /// A message of the given kind about `info`.
    pub fn new(info: &str, kind: MessageKind) -> (res: Self)
        ensures
            res.spec_info() == info@,
            res.spec_kind() == kind,
    {
        Self { info: String::from_str(info), kind }
    }

    /// The message as shown: its kind's words, then the detail.
    pub fn text(&self) -> (res: String)
        ensures
            res@ == message_label(self.spec_kind()) + self.spec_info(),
    {
        let label: &str = match self.kind {
            MessageKind::FailedOpen => "failed to open: ",
            MessageKind::FailedSave => "failed to save at: ",
            MessageKind::Saved => "saved at: ",
        };
        let mut out = String::from_str(label);
        out.append(self.info.as_str());
        out
    }
}

} // verus!
