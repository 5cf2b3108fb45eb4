//! The typed failure conditions of a generation run.  None of them is a
//! process abort: every failure is returned to the caller with the
//! offending identity attached.

use vstd::prelude::*;

verus! {

/// The kind of declared construct a backend was asked to emit.
#[derive(Debug, Clone, Copy, PartialEq, Eq, Structural)]
pub enum ConstructKind {
    Struct,
    Enum,
    Alias,
}

/// The dependency sorter found a set of named types among which every
/// member references another member, so no member can be emitted first.
/// Fatal for the whole run; carries the participating identities.
#[derive(Debug)]
pub struct CycleError {
    pub names: Vec<String>,
}

/// The formatter was asked to render a shape it cannot express in the
/// target language; carries the offending reference.
#[derive(Debug)]
pub enum TypeFormatError {
    /// A generic parameter stood where the target needs a bound,
    /// concrete type - as a map key - and no binding exists at
    /// generation time; carries the parameter's name.
    UnboundGeneric { name: String },
}

/// Any failure of one generation run.
#[derive(Debug)]
pub enum GenerateError {
    /// A true reference cycle among named types; aborts the run.
    UnresolvableCycle(CycleError),
    /// A backend was asked to emit a construct it declares no support
    /// for; names the construct kind and the offending item.
    UnsupportedConstruct { kind: ConstructKind, name: String },
    /// A single item's type could not be rendered.
    TypeFormat(TypeFormatError),
}

/// The mathematical value of a [`TypeFormatError`].
pub enum TypeFormatErrorView {
    UnboundGeneric { name: Seq<char> },
}

/// The mathematical value of a [`GenerateError`].
pub enum GenerateErrorView {
    UnresolvableCycle(Seq<Seq<char>>),
    UnsupportedConstruct { kind: ConstructKind, name: Seq<char> },
    TypeFormat(TypeFormatErrorView),
}

impl View for CycleError {
    type V = Seq<Seq<char>>;

    open spec fn view(&self) -> Seq<Seq<char>> {
        self.names.deep_view()
    }
}

impl View for TypeFormatError {
    type V = TypeFormatErrorView;

    open spec fn view(&self) -> TypeFormatErrorView {
        match self {
            TypeFormatError::UnboundGeneric { name } => TypeFormatErrorView::UnboundGeneric {
                name: name@,
            },
        }
    }
}

impl View for GenerateError {
    type V = GenerateErrorView;

    open spec fn view(&self) -> GenerateErrorView {
        match self {
            GenerateError::UnresolvableCycle(ce) => GenerateErrorView::UnresolvableCycle(ce@),
            GenerateError::UnsupportedConstruct { kind, name } => {
                GenerateErrorView::UnsupportedConstruct { kind: *kind, name: name@ }
            },
            GenerateError::TypeFormat(fe) => GenerateErrorView::TypeFormat(fe@),
        }
    }
}

/// Whether the executable result `r` carries the mathematical result
/// `s`: equal text on success, equal error value on failure.
pub open spec fn res_matches(r: Result<String, GenerateError>, s: Result<Seq<char>, GenerateErrorView>) -> bool {
    match (r, s) {
        (Ok(t), Ok(ts)) => t@ == ts,
        (Err(e), Err(ev)) => e@ == ev,
        _ => false,
    }
}

/// As [`res_matches`], for the formatter's error type.
pub open spec fn fmt_res_matches(r: Result<String, TypeFormatError>, s: Result<Seq<char>, TypeFormatErrorView>) -> bool {
    match (r, s) {
        (Ok(t), Ok(ts)) => t@ == ts,
        (Err(e), Err(ev)) => e@ == ev,
        _ => false,
    }
}

} // verus!
