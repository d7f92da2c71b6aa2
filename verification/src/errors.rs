//! Errors reported by the library.
use crate::strings::{decimal, push_str, u32_to_string};
use vstd::prelude::*;

verus! {

/// All errors that can be reported while parsing and analyzing projects.
#[derive(Debug, PartialEq)]
pub enum Error {
    WithLocation { path: String, line: u32, error: Box<Error> },
    WithPath { path: String, error: Box<Error> },
    UnexpectedEOF,
    WrongToken { expected: String, got: String },
    CannotParse { path: String, lang: String },
    InvalidPackageName(String),
    InvalidAttribute(String),
    InvalidAttributeWithIndex(String, String),
    InvalidAttributeWithOthers(String),
    VariableMustBeString,
    WrongIndexes(String),
    UnknownFunction(String),
    MissingAttributeNameAfterProject,
    MismatchEndName(String, String),
    NotStaticString,
    ListCanOnlyContainStrings,
    AlreadyDeclared,
    WrongAmpersand,
    NotFound(String),
    IoWithPath(String, String),
    Io(String),
    InvalidGraphNode(String),
    UselessWhenClause,
    TooManyScenarioVariables,
    InconsistentScenarioVariable(String),
    InconsistentFileLang(String),
    CaseOnMultipleVariables(String),
    InvalidExternal,
    InvalidType(String),
    TooManyNodes,
    UnsupportedExpression(String),
    DependencyCycle,
}

impl Error {
    /// An unexpected token was found.
    pub fn wrong_token(expected: &str, got: String) -> (r: Self)
        ensures
            r matches Error::WrongToken { expected: e, got: g } && e@ == expected@ && g@ == got@,
    {
        let mut e = String::new();
        push_str(&mut e, expected);
        Error::WrongToken { expected: e, got }
    }

    /// Some entity was not found.
    pub fn not_found(name: String) -> (r: Self)
        ensures
            r matches Error::NotFound(n) && n@ == name@,
    {
        Error::NotFound(name)
    }

    /// The text of the error message.
    pub open spec fn message(&self) -> Seq<char>
        decreases self,
    {
        match self {
            Error::WithLocation { path, line, error } => path@ + ":"@ + decimal(*line as nat) + " "@
                + error.message(),
            Error::WithPath { path, error } => path@ + ": "@ + error.message(),
            Error::UnexpectedEOF => "Unexpected end of file"@,
            Error::WrongToken { expected, got } => "Expected "@ + expected@ + ", got "@ + got@,
            Error::CannotParse { path, lang } => "Cannot parse "@ + path@ + ", language "@ + lang@,
            Error::InvalidPackageName(f0) => "Invalid package name "@ + f0@,
            Error::InvalidAttribute(f0) => "Invalid attribute name "@ + f0@,
            Error::InvalidAttributeWithIndex(f0, f1) => "Invalid attribute name "@ + f0@ + "("@ + f1@ + ")"@,
            Error::InvalidAttributeWithOthers(f0) => "Invalid attribute name "@ + f0@ + "(others)"@,
            Error::VariableMustBeString => "Variable in case statement must be a string"@,
            Error::WrongIndexes(f0) => "Wrong number of indices for "@ + f0@,
            Error::UnknownFunction(f0) => "Unknown function "@ + f0@,
            Error::MissingAttributeNameAfterProject => "`Project'` must be followed by attribute name"@,
            Error::MismatchEndName(f0, f1) => "Name "@ + f0@ + " should have been "@ + f1@,
            Error::NotStaticString => "Not a static string"@,
            Error::ListCanOnlyContainStrings => "Lists can only contain strings"@,
            Error::AlreadyDeclared => "Already declared"@,
            Error::WrongAmpersand => "Wrong use of &"@,
            Error::NotFound(f0) => f0@ + " not found"@,
            Error::IoWithPath(f0, f1) => f0@ + " while reading "@ + f1@,
            Error::Io(f0) => f0@,
            Error::InvalidGraphNode(f0) => "Invalid graph node type "@ + f0@,
            Error::UselessWhenClause => "When clause can never match"@,
            Error::TooManyScenarioVariables => "Too many scenario variables"@,
            Error::InconsistentScenarioVariable(f0) => "Scenario variable "@ + f0@ + " defined multiple times with different types"@,
            Error::InconsistentFileLang(f0) => "Inconsistent language for "@ + f0@,
            Error::CaseOnMultipleVariables(f0) => "Variable used in case statement should depend on exactly one scenario variable: "@ + f0@,
            Error::InvalidExternal => "Arguments to external must be static strings"@,
            Error::InvalidType(f0) => "Not a list of strings: type "@ + f0@,
            Error::TooManyNodes => "Too many nodes or edges in the dependency graph"@,
            Error::UnsupportedExpression(f0) => f0@ + ": expression cannot be evaluated"@,
            Error::DependencyCycle => "Projects depend on each other"@,
        }
    }

    /// Formats the error message.
    pub fn to_message(&self) -> (r: String)
        ensures
            r@ == self.message(),
        decreases self,
    {
        let mut r = String::new();
        match self {
            Error::WithLocation { path, line, error } => {
                push_str(&mut r, path.as_str());
                push_str(&mut r, ":");
                let l = u32_to_string(*line);
                push_str(&mut r, l.as_str());
                push_str(&mut r, " ");
                let m = error.to_message();
                push_str(&mut r, m.as_str());
            },
            Error::WithPath { path, error } => {
                push_str(&mut r, path.as_str());
                push_str(&mut r, ": ");
                let m = error.to_message();
                push_str(&mut r, m.as_str());
            },
            Error::UnexpectedEOF => {
                push_str(&mut r, "Unexpected end of file");
            },
            Error::WrongToken { expected, got } => {
                push_str(&mut r, "Expected ");
                push_str(&mut r, expected.as_str());
                push_str(&mut r, ", got ");
                push_str(&mut r, got.as_str());
            },
            Error::CannotParse { path, lang } => {
                push_str(&mut r, "Cannot parse ");
                push_str(&mut r, path.as_str());
                push_str(&mut r, ", language ");
                push_str(&mut r, lang.as_str());
            },
            Error::InvalidPackageName(f0) => {
                push_str(&mut r, "Invalid package name ");
                push_str(&mut r, f0.as_str());
            },
            Error::InvalidAttribute(f0) => {
                push_str(&mut r, "Invalid attribute name ");
                push_str(&mut r, f0.as_str());
            },
            Error::InvalidAttributeWithIndex(f0, f1) => {
                push_str(&mut r, "Invalid attribute name ");
                push_str(&mut r, f0.as_str());
                push_str(&mut r, "(");
                push_str(&mut r, f1.as_str());
                push_str(&mut r, ")");
            },
            Error::InvalidAttributeWithOthers(f0) => {
                push_str(&mut r, "Invalid attribute name ");
                push_str(&mut r, f0.as_str());
                push_str(&mut r, "(others)");
            },
            Error::VariableMustBeString => {
                push_str(&mut r, "Variable in case statement must be a string");
            },
            Error::WrongIndexes(f0) => {
                push_str(&mut r, "Wrong number of indices for ");
                push_str(&mut r, f0.as_str());
            },
            Error::UnknownFunction(f0) => {
                push_str(&mut r, "Unknown function ");
                push_str(&mut r, f0.as_str());
            },
            Error::MissingAttributeNameAfterProject => {
                push_str(&mut r, "`Project'` must be followed by attribute name");
            },
            Error::MismatchEndName(f0, f1) => {
                push_str(&mut r, "Name ");
                push_str(&mut r, f0.as_str());
                push_str(&mut r, " should have been ");
                push_str(&mut r, f1.as_str());
            },
            Error::NotStaticString => {
                push_str(&mut r, "Not a static string");
            },
            Error::ListCanOnlyContainStrings => {
                push_str(&mut r, "Lists can only contain strings");
            },
            Error::AlreadyDeclared => {
                push_str(&mut r, "Already declared");
            },
            Error::WrongAmpersand => {
                push_str(&mut r, "Wrong use of &");
            },
            Error::NotFound(f0) => {
                push_str(&mut r, f0.as_str());
                push_str(&mut r, " not found");
            },
            Error::IoWithPath(f0, f1) => {
                push_str(&mut r, f0.as_str());
                push_str(&mut r, " while reading ");
                push_str(&mut r, f1.as_str());
            },
            Error::Io(f0) => {
                push_str(&mut r, f0.as_str());
            },
            Error::InvalidGraphNode(f0) => {
                push_str(&mut r, "Invalid graph node type ");
                push_str(&mut r, f0.as_str());
            },
            Error::UselessWhenClause => {
                push_str(&mut r, "When clause can never match");
            },
            Error::TooManyScenarioVariables => {
                push_str(&mut r, "Too many scenario variables");
            },
            Error::InconsistentScenarioVariable(f0) => {
                push_str(&mut r, "Scenario variable ");
                push_str(&mut r, f0.as_str());
                push_str(&mut r, " defined multiple times with different types");
            },
            Error::InconsistentFileLang(f0) => {
                push_str(&mut r, "Inconsistent language for ");
                push_str(&mut r, f0.as_str());
            },
            Error::CaseOnMultipleVariables(f0) => {
                push_str(&mut r, "Variable used in case statement should depend on exactly one scenario variable: ");
                push_str(&mut r, f0.as_str());
            },
            Error::InvalidExternal => {
                push_str(&mut r, "Arguments to external must be static strings");
            },
            Error::InvalidType(f0) => {
                push_str(&mut r, "Not a list of strings: type ");
                push_str(&mut r, f0.as_str());
            },
            Error::TooManyNodes => {
                push_str(&mut r, "Too many nodes or edges in the dependency graph");
            },
            Error::UnsupportedExpression(f0) => {
                push_str(&mut r, f0.as_str());
                push_str(&mut r, ": expression cannot be evaluated");
            },
            Error::DependencyCycle => {
                push_str(&mut r, "Projects depend on each other");
            },
        }
        r
    }
}

} // verus!
