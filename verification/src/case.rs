//! Named cases, the unit that is compared, and the diagnostics that name them.

use vstd::prelude::*;
use vstd::string::StringExecFns;

verus! {

/// A handle to a place in the source. It is handed back in diagnostics and
/// never interpreted here.
#[derive(Clone, Copy, Debug, PartialEq, Eq, Structural)]
pub struct Location {
    pub id: u64,
}

/// One sortable case: the name it is ordered by, the qualifier it was written
/// under (the first segment of a path of several segments), and where it
/// stands in the source.
#[derive(Debug, PartialEq, Eq)]
pub struct NamedCase {
    pub key: String,
    pub qualifier: Option<String>,
    pub location: Location,
}

/// A named case as a mathematical value.
pub struct CaseView {
    pub key: Seq<char>,
    pub qualifier: Option<Seq<char>>,
    pub location: Location,
}

/// The characters of an optional string.
pub open spec fn option_view(s: Option<String>) -> Option<Seq<char>> {
    match s {
        Some(q) => Some(q@),
        None => None,
    }
}

impl View for NamedCase {
    type V = CaseView;

    open spec fn view(&self) -> CaseView {
        CaseView {
            key: self.key@,
            qualifier: option_view(self.qualifier),
            location: self.location,
        }
    }
}

impl DeepView for NamedCase {
    type V = CaseView;

    open spec fn deep_view(&self) -> CaseView {
        self@
    }
}

impl Clone for NamedCase {
    fn clone(&self) -> (r: Self)
        ensures
            r == *self,
    {
        let qualifier = match &self.qualifier {
            Some(q) => Some(q.clone()),
            None => None,
        };
        NamedCase { key: self.key.clone(), qualifier, location: self.location }
    }
}

/// The keys of a sequence of cases, in the same order.
pub open spec fn keys(cases: Seq<CaseView>) -> Seq<Seq<char>> {
    cases.map_values(|c: CaseView| c.key)
}

/// A key as it is written in a message: behind its qualifier and `::` where
/// there is one, bare otherwise.
pub open spec fn qualified(qualifier: Option<Seq<char>>, key: Seq<char>) -> Seq<char> {
    match qualifier {
        Some(q) => q + "::"@ + key,
        None => key,
    }
}

/// The message that tells the author where `offending` belongs: before
/// `neighbor`. Both names stand behind the qualifier of `offending`.
pub open spec fn ordering_message(offending: CaseView, neighbor: CaseView) -> Seq<char> {
    qualified(offending.qualifier, offending.key) + " should sort before "@ + qualified(
        offending.qualifier,
        neighbor.key,
    )
}

/// The message for a pattern that has no key.
pub open spec fn unsupported_message() -> Seq<char> {
    "unsupported by #[sorted]"@
}

/// The message for an item that is not an enum.
pub open spec fn inapplicable_message() -> Seq<char> {
    "expected enum or match expression"@
}

/// What is reported to the author. At most one is produced per run.
#[derive(Debug, PartialEq, Eq)]
pub enum Diagnostic {
    /// `offending` is written after a case that it sorts before; it belongs
    /// directly before `neighbor`.
    OutOfOrder { offending: NamedCase, neighbor: NamedCase, message: String },
    /// The pattern at `location` is of a kind that has no key.
    Unsupported { location: Location, message: String },
    /// The item is not an enum.
    Inapplicable { message: String },
}

/// A diagnostic as a mathematical value.
pub enum DiagnosticView {
    OutOfOrder { offending: CaseView, neighbor: CaseView, message: Seq<char> },
    Unsupported { location: Location, message: Seq<char> },
    Inapplicable { message: Seq<char> },
}

impl View for Diagnostic {
    type V = DiagnosticView;

    open spec fn view(&self) -> DiagnosticView {
        match *self {
            Diagnostic::OutOfOrder { offending, neighbor, message } => DiagnosticView::OutOfOrder {
                offending: offending@,
                neighbor: neighbor@,
                message: message@,
            },
            Diagnostic::Unsupported { location, message } => DiagnosticView::Unsupported {
                location,
                message: message@,
            },
            Diagnostic::Inapplicable { message } => DiagnosticView::Inapplicable {
                message: message@,
            },
        }
    }
}

impl DiagnosticView {
    /// The text of the diagnostic.
    pub open spec fn message(self) -> Seq<char> {
        match self {
            DiagnosticView::OutOfOrder { message, .. } => message,
            DiagnosticView::Unsupported { message, .. } => message,
            DiagnosticView::Inapplicable { message } => message,
        }
    }

    /// The place the diagnostic points at, where it has one.
    pub open spec fn location(self) -> Option<Location> {
        match self {
            DiagnosticView::OutOfOrder { offending, .. } => Some(offending.location),
            DiagnosticView::Unsupported { location, .. } => Some(location),
            DiagnosticView::Inapplicable { .. } => None,
        }
    }

    /// The diagnostic for `offending`, which belongs directly before
    /// `neighbor`.
    pub open spec fn out_of_order(offending: CaseView, neighbor: CaseView) -> DiagnosticView {
        DiagnosticView::OutOfOrder {
            offending,
            neighbor,
            message: ordering_message(offending, neighbor),
        }
    }

    /// The diagnostic for a pattern without a key at `location`.
    pub open spec fn unsupported(location: Location) -> DiagnosticView {
        DiagnosticView::Unsupported { location, message: unsupported_message() }
    }

    /// The diagnostic for an item that is not an enum.
    pub open spec fn inapplicable() -> DiagnosticView {
        DiagnosticView::Inapplicable { message: inapplicable_message() }
    }
}

/// Why a run ended without success.
#[derive(Debug, PartialEq, Eq)]
pub enum Failure {
    /// Arguments were given. None are accepted, so this is a mistake of the
    /// caller and says nothing about the order of the cases.
    Usage,
    /// The construct was examined and a diagnostic is reported.
    Rejected(Diagnostic),
}

/// A failure as a mathematical value.
pub enum FailureView {
    Usage,
    Rejected(DiagnosticView),
}

impl View for Failure {
    type V = FailureView;

    open spec fn view(&self) -> FailureView {
        match *self {
            Failure::Usage => FailureView::Usage,
            Failure::Rejected(d) => FailureView::Rejected(d@),
        }
    }
}

/// Appends `key` to `out` as it is written in a message.
fn push_qualified(out: &mut String, qualifier: &Option<String>, key: &String)
    ensures
        final(out)@ == old(out)@ + qualified(option_view(*qualifier), key@),
{
    match qualifier {
        Some(q) => {
            out.append(q.as_str());
            out.append("::");
        },
        None => {},
    }
    out.append(key.as_str());
}

impl Diagnostic {
    /// Reports that `offending` belongs directly before `neighbor`.
    pub fn out_of_order(offending: NamedCase, neighbor: NamedCase) -> (d: Diagnostic)
        ensures
            d@ == DiagnosticView::out_of_order(offending@, neighbor@),
    {
        let mut message = String::new();
        push_qualified(&mut message, &offending.qualifier, &offending.key);
        message.append(" should sort before ");
        push_qualified(&mut message, &offending.qualifier, &neighbor.key);
        Diagnostic::OutOfOrder { offending, neighbor, message }
    }

    /// Reports a pattern without a key at `location`.
    pub fn unsupported(location: Location) -> (d: Diagnostic)
        ensures
            d@ == DiagnosticView::unsupported(location),
    {
        Diagnostic::Unsupported { location, message: String::from_str("unsupported by #[sorted]") }
    }

    /// Reports an item that is not an enum.
    pub fn inapplicable() -> (d: Diagnostic)
        ensures
            d@ == DiagnosticView::inapplicable(),
    {
        Diagnostic::Inapplicable {
            message: String::from_str("expected enum or match expression"),
        }
    }

    /// The text of the diagnostic.
    pub fn message(&self) -> (m: &String)
        ensures
            m@ == self@.message(),
    {
        match self {
            Diagnostic::OutOfOrder { message, .. } => message,
            Diagnostic::Unsupported { message, .. } => message,
            Diagnostic::Inapplicable { message } => message,
        }
    }

    /// The place the diagnostic points at, where it has one.
    pub fn location(&self) -> (l: Option<Location>)
        ensures
            l == self@.location(),
    {
        match self {
            Diagnostic::OutOfOrder { offending, .. } => Some(offending.location),
            Diagnostic::Unsupported { location, .. } => Some(*location),
            Diagnostic::Inapplicable { .. } => None,
        }
    }
}

} // verus!
