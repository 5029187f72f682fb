//! Why no child runs with the sockets.

use crate::addr::{address_text, push_address};
use crate::kind::{label_of, SocketKind};
use crate::parse::ParseError;
use crate::sock::{BindError, Step};
use crate::text::{integer_text, push_integer};
use vstd::prelude::*;

verus! {

/// Why no child runs with the sockets.
#[derive(Clone, Debug, PartialEq, Eq)]
pub enum Failure {
    /// A description could not be read: its address or its port is invalid.
    Description { text: String, kind: SocketKind, error: ParseError },
    /// A host name stands for no address of the family.
    Resolution { host: String, kind: SocketKind },
    /// A socket could not be opened.
    Bind(BindError),
    /// The command could not be run; the system gave the error number.
    Exec { command: String, code: i32 },
}

/// A failure, with its texts as sequences of characters.
pub enum FailureView {
    Description { text: Seq<char>, kind: SocketKind, error: ParseError },
    Resolution { host: Seq<char>, kind: SocketKind },
    Bind(BindError),
    Exec { command: Seq<char>, code: i32 },
}

impl View for Failure {
    type V = FailureView;

    open spec fn view(&self) -> FailureView {
        match self {
            Failure::Description { text, kind, error } => FailureView::Description {
                text: text@,
                kind: *kind,
                error: *error,
            },
            Failure::Resolution { host, kind } => FailureView::Resolution {
                host: host@,
                kind: *kind,
            },
            Failure::Bind(e) => FailureView::Bind(*e),
            Failure::Exec { command, code } => FailureView::Exec {
                command: command@,
                code: *code,
            },
        }
    }
}

impl Failure {
    /// A second failure like this one.
    pub fn duplicate(&self) -> (f: Failure)
        ensures
            f@ == self@,
    {
        match self {
            Failure::Description { text, kind, error } => Failure::Description {
                text: text.clone(),
                kind: *kind,
                error: *error,
            },
            Failure::Resolution { host, kind } => Failure::Resolution {
                host: host.clone(),
                kind: *kind,
            },
            Failure::Bind(e) => Failure::Bind(*e),
            Failure::Exec { command, code } => Failure::Exec {
                command: command.clone(),
                code: *code,
            },
        }
    }

    /// One line that tells what failed: the description, the host or the
    /// address concerned and the kind of socket, or the command; where the
    /// system gave an error number also that number and the text that the
    /// system has for it, handed in as `reason`.
    pub fn describe(&self, reason: &str) -> (s: String)
        ensures
            s@ == message_of(self@, reason@),
    {
        let mut s = String::new();
        match self {
            Failure::Description { text, kind, error } => {
                match error {
                    ParseError::InvalidAddress => s.append("invalid address for "),
                    ParseError::InvalidPort => s.append("invalid port for "),
                }
                s.append(kind.label());
                s.append(": ");
                s.append(text.as_str());
            },
            Failure::Resolution { host, kind } => {
                s.append("no address for ");
                s.append(kind.label());
                s.append(": ");
                s.append(host.as_str());
            },
            Failure::Bind(e) => {
                s.append("cannot ");
                s.append(e.step.label());
                s.append(" ");
                s.append(e.kind.label());
                s.append(" socket for ");
                push_address(&mut s, e.address);
                s.append(": ");
                s.append(reason);
                s.append(" (error ");
                push_integer(&mut s, e.code);
                s.append(")");
            },
            Failure::Exec { command, code } => {
                s.append("cannot run ");
                s.append(command.as_str());
                s.append(": ");
                s.append(reason);
                s.append(" (error ");
                push_integer(&mut s, *code);
                s.append(")");
            },
        }
        proof {
            assert(s@ =~= message_of(self@, reason@));
        }
        s
    }

    /// One line that tells what failed, with the text that the system has
    /// for the error number where it gave one. That text differs from
    /// system to system, so the line is stated up to it.
    pub fn message(&self) -> (s: String)
        ensures
            exists|reason: Seq<char>| s@ == #[trigger] message_of(self@, reason),
            self is Description || self is Resolution ==> s@ == message_of(self@, Seq::empty()),
    {
        match self {
            Failure::Bind(e) => {
                let reason = error_text(e.code);
                self.describe(reason.as_str())
            },
            Failure::Exec { code, .. } => {
                let reason = error_text(*code);
                self.describe(reason.as_str())
            },
            _ => {
                let s = self.describe("");
                proof {
                    reveal_strlit("");
                    assert(""@ =~= Seq::<char>::empty());
                }
                s
            },
        }
    }
}

/// The text that the system has for an error number, as
/// `nix::errno::Errno::desc` gives it for the error that
/// `nix::errno::Errno::from_i32` makes of the number. Nothing is claimed of
/// the text: the same number stands for different errors on different
/// systems.
#[verifier::external_body]
fn error_text(code: i32) -> (text: String) {
    String::from(nix::errno::Errno::from_i32(code).desc())
}

/// The word for a step.
pub open spec fn step_text(step: Step) -> Seq<char> {
    match step {
        Step::Create => "create"@,
        Step::Configure => "configure"@,
        Step::Bind => "bind"@,
        Step::Listen => "listen on"@,
        Step::Query => "query"@,
    }
}

impl Step {
    /// The word for this step.
    pub fn label(&self) -> (s: &'static str)
        ensures
            s@ == step_text(*self),
    {
        match self {
            Step::Create => "create",
            Step::Configure => "configure",
            Step::Bind => "bind",
            Step::Listen => "listen on",
            Step::Query => "query",
        }
    }
}

/// The line that tells what failed, where `reason` is the text that the
/// system has for the error number that it gave.
pub open spec fn message_of(failure: FailureView, reason: Seq<char>) -> Seq<char> {
    match failure {
        FailureView::Description { text, kind, error } => (match error {
            ParseError::InvalidAddress => "invalid address for "@,
            ParseError::InvalidPort => "invalid port for "@,
        }) + label_of(kind) + ": "@ + text,
        FailureView::Resolution { host, kind } => "no address for "@ + label_of(kind) + ": "@
            + host,
        FailureView::Bind(e) => "cannot "@ + step_text(e.step) + " "@ + label_of(e.kind)
            + " socket for "@ + address_text(e.address) + ": "@ + reason + " (error "@
            + integer_text(e.code as int) + ")"@,
        FailureView::Exec { command, code } => "cannot run "@ + command + ": "@ + reason
            + " (error "@ + integer_text(code as int) + ")"@,
    }
}

} // verus!
