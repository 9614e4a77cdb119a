//! The failure taxonomy of the renderer.
use vstd::prelude::*;

verus! {

/// Why a render failed, in the model: payloads as character sequences.
pub ghost enum ErrSpec {
    InvalidFileExtension,
    IllegalVarName(Seq<char>),
    VarNotFound(Seq<char>),
    BadArgument(Seq<char>),
    MissingEndFor,
    MissingEndIf,
    RecursionTooDeep,
    ComponentNotFound(Seq<char>),
    IterationLimit,
}

/// Why a render failed. Any failure aborts the whole render; no partial
/// output is kept.
#[derive(Debug)]
pub enum ErrorKind {
    /// A configured file extension did not start with `.`.
    InvalidFileExtension,
    /// A variable name held a disallowed character.
    IllegalVarName(String),
    /// A dotted path did not resolve against the variable mapping.
    VarNotFound(String),
    /// A directive was malformed: wrong arity or unknown keyword.
    BadArgument(String),
    /// A `for:` block was never closed by `[[ endfor ]]`.
    MissingEndFor,
    /// An `if:` block was never closed by `[[ endif ]]`.
    MissingEndIf,
    /// Components nested more than five levels deep.
    RecursionTooDeep,
    /// A `component:` directive named a component that was never stored.
    ComponentNotFound(String),
    /// A render ran past the hard iteration limit.
    IterationLimit,
}

impl View for ErrorKind {
    type V = ErrSpec;

    open spec fn view(&self) -> ErrSpec {
        match self {
            ErrorKind::InvalidFileExtension => ErrSpec::InvalidFileExtension,
            ErrorKind::IllegalVarName(s) => ErrSpec::IllegalVarName(s@),
            ErrorKind::VarNotFound(s) => ErrSpec::VarNotFound(s@),
            ErrorKind::BadArgument(s) => ErrSpec::BadArgument(s@),
            ErrorKind::MissingEndFor => ErrSpec::MissingEndFor,
            ErrorKind::MissingEndIf => ErrSpec::MissingEndIf,
            ErrorKind::RecursionTooDeep => ErrSpec::RecursionTooDeep,
            ErrorKind::ComponentNotFound(s) => ErrSpec::ComponentNotFound(s@),
            ErrorKind::IterationLimit => ErrSpec::IterationLimit,
        }
    }
}

/// The description `message` renders for a failure model.
pub open spec fn err_text(e: ErrSpec) -> Seq<char> {
    match e {
        ErrSpec::InvalidFileExtension => "Invalid file extension (must start with '.')"@,
        ErrSpec::IllegalVarName(s) => "Illegal variable name: '"@ + s + "'"@,
        ErrSpec::VarNotFound(s) => "Variable '"@ + s + "' not found"@,
        ErrSpec::BadArgument(s) => s,
        ErrSpec::MissingEndFor => "`for:` statement missing `[[ endfor ]]`"@,
        ErrSpec::MissingEndIf => "`if:` statement missing `[[ endif ]]`"@,
        ErrSpec::RecursionTooDeep => "`component:` statement recursion too deep (>5)"@,
        ErrSpec::ComponentNotFound(s) => "Component '"@ + s + "' not found"@,
        ErrSpec::IterationLimit => "Render exceeded the iteration limit"@,
    }
}

impl ErrorKind {
    /// A short description of the failure, for the caller to present.
    pub fn message(&self) -> (r: String)
        ensures
            r@ == err_text(self@),
    {
        match self {
            ErrorKind::InvalidFileExtension => String::from_str(
                "Invalid file extension (must start with '.')",
            ),
            ErrorKind::IllegalVarName(s) => {
                let mut m = String::from_str("Illegal variable name: '");
                m.append(s.as_str());
                m.append("'");
                m
            },
            ErrorKind::VarNotFound(s) => {
                let mut m = String::from_str("Variable '");
                m.append(s.as_str());
                m.append("' not found");
                m
            },
            ErrorKind::BadArgument(s) => s.clone(),
            ErrorKind::MissingEndFor => String::from_str(
                "`for:` statement missing `[[ endfor ]]`",
            ),
            ErrorKind::MissingEndIf => String::from_str("`if:` statement missing `[[ endif ]]`"),
            ErrorKind::RecursionTooDeep => String::from_str(
                "`component:` statement recursion too deep (>5)",
            ),
            ErrorKind::ComponentNotFound(s) => {
                let mut m = String::from_str("Component '");
                m.append(s.as_str());
                m.append("' not found");
                m
            },
            ErrorKind::IterationLimit => String::from_str("Render exceeded the iteration limit"),
        }
    }
}

} // verus!
