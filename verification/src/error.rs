//! The errors of the library.

use vstd::prelude::*;

verus! {

/// Why an operation on a template, an assembler or an executable reference
/// was refused.
#[derive(Debug, Clone, PartialEq, Eq)]
pub enum TemplateError {
    /// The input to an operation was ill-formed.
    Parse { message: String },
    /// A value was offered for a name that no template declares.
    UnknownPlaceholder { name: String },
    /// A template was rendered while some of its placeholders had no value.
    /// `missing` lists all of them, in order of first appearance.
    UnresolvedPlaceholders { missing: Vec<String> },
    /// An entry of an assembler could not be rendered. `position` is the
    /// entry's index, `missing` the placeholders that it lacks.
    Render { position: usize, missing: Vec<String> },
    /// The out-of-process build or run failed.
    Execution { diagnostic: String },
}

/// The mathematical content of a [`TemplateError`].
pub enum TemplateErrorView {
    Parse { message: Seq<char> },
    UnknownPlaceholder { name: Seq<char> },
    UnresolvedPlaceholders { missing: Seq<Seq<char>> },
    Render { position: nat, missing: Seq<Seq<char>> },
    Execution { diagnostic: Seq<char> },
}

impl View for TemplateError {
    type V = TemplateErrorView;

    open spec fn view(&self) -> TemplateErrorView {
        match *self {
            TemplateError::Parse { message } => TemplateErrorView::Parse { message: message@ },
            TemplateError::UnknownPlaceholder { name } => TemplateErrorView::UnknownPlaceholder {
                name: name@,
            },
            TemplateError::UnresolvedPlaceholders {
                missing,
            } => TemplateErrorView::UnresolvedPlaceholders { missing: missing.deep_view() },
            TemplateError::Render { position, missing } => TemplateErrorView::Render {
                position: position as nat,
                missing: missing.deep_view(),
            },
            TemplateError::Execution { diagnostic } => TemplateErrorView::Execution {
                diagnostic: diagnostic@,
            },
        }
    }
}

/// The content of a result that carries text.
pub open spec fn text_result(r: Result<String, TemplateError>) -> Result<
    Seq<char>,
    TemplateErrorView,
> {
    match r {
        Ok(text) => Ok(text@),
        Err(e) => Err(e@),
    }
}

/// The content of a result that carries nothing.
pub open spec fn unit_result(r: Result<(), TemplateError>) -> Result<(), TemplateErrorView> {
    match r {
        Ok(_) => Ok(()),
        Err(e) => Err(e@),
    }
}

} // verus!
