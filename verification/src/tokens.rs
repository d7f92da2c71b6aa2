//! Tokens produced by the lexers, for all supported languages.
use crate::strings::{decimal, push_char, push_str, u32_to_string};
use vstd::prelude::*;

verus! {

/// All possible tokens for all languages.  Each lexer only returns a subset
/// of those tokens, depending on the language.
#[derive(Clone, Debug, PartialEq)]
pub enum TokenKind {
    EndOfFile,
    Abstract,
    Aggregate,
    Ampersand,
    Arrow,
    Assign,
    Body,
    Case,
    CloseParenthesis,
    Colon,
    Comma,
    Dot,
    Equal,
    End,
    Extends,
    For,
    Function,
    Generic,
    GreaterThan,
    HashDefine,
    HashElse,
    HashEndif,
    HashIf,
    HashIfdef,
    HashIfndef,
    HashUndef,
    Is,
    LessThan,
    Loop,
    Library,
    Limited,
    Minus,
    Null,
    OpenParenthesis,
    Others,
    Package,
    Pipe,
    Pragma,
    Private,
    Procedure,
    Project,
    Renames,
    Semicolon,
    Separate,
    Tick,
    Type,
    Use,
    When,
    With,
    Character(char),
    InvalidChar(char),
    HashInclude(String),
    /// Lower-cased identifier
    Identifier(String),
    /// Does not include the surrounding quotes
    String(String),
}

impl TokenKind {
    /// A number that identifies the variant of the token.
    pub open spec fn spec_code(&self) -> int {
        match self {
            TokenKind::EndOfFile => 0,
            TokenKind::Abstract => 1,
            TokenKind::Aggregate => 2,
            TokenKind::Ampersand => 3,
            TokenKind::Arrow => 4,
            TokenKind::Assign => 5,
            TokenKind::Body => 6,
            TokenKind::Case => 7,
            TokenKind::CloseParenthesis => 8,
            TokenKind::Colon => 9,
            TokenKind::Comma => 10,
            TokenKind::Dot => 11,
            TokenKind::Equal => 12,
            TokenKind::End => 13,
            TokenKind::Extends => 14,
            TokenKind::For => 15,
            TokenKind::Function => 16,
            TokenKind::Generic => 17,
            TokenKind::GreaterThan => 18,
            TokenKind::HashDefine => 19,
            TokenKind::HashElse => 20,
            TokenKind::HashEndif => 21,
            TokenKind::HashIf => 22,
            TokenKind::HashIfdef => 23,
            TokenKind::HashIfndef => 24,
            TokenKind::HashUndef => 25,
            TokenKind::Is => 26,
            TokenKind::LessThan => 27,
            TokenKind::Loop => 28,
            TokenKind::Library => 29,
            TokenKind::Limited => 30,
            TokenKind::Minus => 31,
            TokenKind::Null => 32,
            TokenKind::OpenParenthesis => 33,
            TokenKind::Others => 34,
            TokenKind::Package => 35,
            TokenKind::Pipe => 36,
            TokenKind::Pragma => 37,
            TokenKind::Private => 38,
            TokenKind::Procedure => 39,
            TokenKind::Project => 40,
            TokenKind::Renames => 41,
            TokenKind::Semicolon => 42,
            TokenKind::Separate => 43,
            TokenKind::Tick => 44,
            TokenKind::Type => 45,
            TokenKind::Use => 46,
            TokenKind::When => 47,
            TokenKind::With => 48,
            TokenKind::Character(_) => 49,
            TokenKind::InvalidChar(_) => 50,
            TokenKind::HashInclude(_) => 51,
            TokenKind::Identifier(_) => 52,
            TokenKind::String(_) => 53,
        }
    }

    /// Whether two tokens are the same (same variant and same contents).
    pub open spec fn same(&self, other: &TokenKind) -> bool {
        &&& self.spec_code() == other.spec_code()
        &&& match (self, other) {
            (TokenKind::Character(a), TokenKind::Character(b)) => a == b,
            (TokenKind::InvalidChar(a), TokenKind::InvalidChar(b)) => a == b,
            (TokenKind::HashInclude(a), TokenKind::HashInclude(b)) => a@ == b@,
            (TokenKind::Identifier(a), TokenKind::Identifier(b)) => a@ == b@,
            (TokenKind::String(a), TokenKind::String(b)) => a@ == b@,
            _ => true,
        }
    }

    /// The number identifying the variant of the token.
    pub fn code(&self) -> (r: u8)
        ensures
            r == self.spec_code(),
    {
        match self {
            TokenKind::EndOfFile => 0,
            TokenKind::Abstract => 1,
            TokenKind::Aggregate => 2,
            TokenKind::Ampersand => 3,
            TokenKind::Arrow => 4,
            TokenKind::Assign => 5,
            TokenKind::Body => 6,
            TokenKind::Case => 7,
            TokenKind::CloseParenthesis => 8,
            TokenKind::Colon => 9,
            TokenKind::Comma => 10,
            TokenKind::Dot => 11,
            TokenKind::Equal => 12,
            TokenKind::End => 13,
            TokenKind::Extends => 14,
            TokenKind::For => 15,
            TokenKind::Function => 16,
            TokenKind::Generic => 17,
            TokenKind::GreaterThan => 18,
            TokenKind::HashDefine => 19,
            TokenKind::HashElse => 20,
            TokenKind::HashEndif => 21,
            TokenKind::HashIf => 22,
            TokenKind::HashIfdef => 23,
            TokenKind::HashIfndef => 24,
            TokenKind::HashUndef => 25,
            TokenKind::Is => 26,
            TokenKind::LessThan => 27,
            TokenKind::Loop => 28,
            TokenKind::Library => 29,
            TokenKind::Limited => 30,
            TokenKind::Minus => 31,
            TokenKind::Null => 32,
            TokenKind::OpenParenthesis => 33,
            TokenKind::Others => 34,
            TokenKind::Package => 35,
            TokenKind::Pipe => 36,
            TokenKind::Pragma => 37,
            TokenKind::Private => 38,
            TokenKind::Procedure => 39,
            TokenKind::Project => 40,
            TokenKind::Renames => 41,
            TokenKind::Semicolon => 42,
            TokenKind::Separate => 43,
            TokenKind::Tick => 44,
            TokenKind::Type => 45,
            TokenKind::Use => 46,
            TokenKind::When => 47,
            TokenKind::With => 48,
            TokenKind::Character(_) => 49,
            TokenKind::InvalidChar(_) => 50,
            TokenKind::HashInclude(_) => 51,
            TokenKind::Identifier(_) => 52,
            TokenKind::String(_) => 53,
        }
    }

    /// Whether two tokens are the same.
    pub fn is_same(&self, other: &TokenKind) -> (r: bool)
        ensures
            r == self.same(other),
    {
        if self.code() != other.code() {
            return false;
        }
        match (self, other) {
            (TokenKind::Character(a), TokenKind::Character(b)) => *a == *b,
            (TokenKind::InvalidChar(a), TokenKind::InvalidChar(b)) => *a == *b,
            (TokenKind::HashInclude(a), TokenKind::HashInclude(b)) => *a == *b,
            (TokenKind::Identifier(a), TokenKind::Identifier(b)) => *a == *b,
            (TokenKind::String(a), TokenKind::String(b)) => *a == *b,
            _ => true,
        }
    }

    /// A copy of the token.
    pub fn dup(&self) -> (r: TokenKind)
        ensures
            r == *self,
    {
        match self {
            TokenKind::EndOfFile => TokenKind::EndOfFile,
            TokenKind::Abstract => TokenKind::Abstract,
            TokenKind::Aggregate => TokenKind::Aggregate,
            TokenKind::Ampersand => TokenKind::Ampersand,
            TokenKind::Arrow => TokenKind::Arrow,
            TokenKind::Assign => TokenKind::Assign,
            TokenKind::Body => TokenKind::Body,
            TokenKind::Case => TokenKind::Case,
            TokenKind::CloseParenthesis => TokenKind::CloseParenthesis,
            TokenKind::Colon => TokenKind::Colon,
            TokenKind::Comma => TokenKind::Comma,
            TokenKind::Dot => TokenKind::Dot,
            TokenKind::Equal => TokenKind::Equal,
            TokenKind::End => TokenKind::End,
            TokenKind::Extends => TokenKind::Extends,
            TokenKind::For => TokenKind::For,
            TokenKind::Function => TokenKind::Function,
            TokenKind::Generic => TokenKind::Generic,
            TokenKind::GreaterThan => TokenKind::GreaterThan,
            TokenKind::HashDefine => TokenKind::HashDefine,
            TokenKind::HashElse => TokenKind::HashElse,
            TokenKind::HashEndif => TokenKind::HashEndif,
            TokenKind::HashIf => TokenKind::HashIf,
            TokenKind::HashIfdef => TokenKind::HashIfdef,
            TokenKind::HashIfndef => TokenKind::HashIfndef,
            TokenKind::HashUndef => TokenKind::HashUndef,
            TokenKind::Is => TokenKind::Is,
            TokenKind::LessThan => TokenKind::LessThan,
            TokenKind::Loop => TokenKind::Loop,
            TokenKind::Library => TokenKind::Library,
            TokenKind::Limited => TokenKind::Limited,
            TokenKind::Minus => TokenKind::Minus,
            TokenKind::Null => TokenKind::Null,
            TokenKind::OpenParenthesis => TokenKind::OpenParenthesis,
            TokenKind::Others => TokenKind::Others,
            TokenKind::Package => TokenKind::Package,
            TokenKind::Pipe => TokenKind::Pipe,
            TokenKind::Pragma => TokenKind::Pragma,
            TokenKind::Private => TokenKind::Private,
            TokenKind::Procedure => TokenKind::Procedure,
            TokenKind::Project => TokenKind::Project,
            TokenKind::Renames => TokenKind::Renames,
            TokenKind::Semicolon => TokenKind::Semicolon,
            TokenKind::Separate => TokenKind::Separate,
            TokenKind::Tick => TokenKind::Tick,
            TokenKind::Type => TokenKind::Type,
            TokenKind::Use => TokenKind::Use,
            TokenKind::When => TokenKind::When,
            TokenKind::With => TokenKind::With,
            TokenKind::Character(c) => TokenKind::Character(*c),
            TokenKind::InvalidChar(c) => TokenKind::InvalidChar(*c),
            TokenKind::HashInclude(s) => TokenKind::HashInclude(s.clone()),
            TokenKind::Identifier(s) => TokenKind::Identifier(s.clone()),
            TokenKind::String(s) => TokenKind::String(s.clone()),
        }
    }

    /// How the token is displayed in error messages.
    pub open spec fn description(&self) -> Seq<char> {
        match self {
            TokenKind::EndOfFile => "EndOfFile"@,
            TokenKind::Abstract => "Abstract"@,
            TokenKind::Aggregate => "Aggregate"@,
            TokenKind::Ampersand => "Ampersand"@,
            TokenKind::Arrow => "Arrow"@,
            TokenKind::Assign => "Assign"@,
            TokenKind::Body => "Body"@,
            TokenKind::Case => "Case"@,
            TokenKind::CloseParenthesis => "CloseParenthesis"@,
            TokenKind::Colon => "Colon"@,
            TokenKind::Comma => "Comma"@,
            TokenKind::Dot => "Dot"@,
            TokenKind::Equal => "Equal"@,
            TokenKind::End => "End"@,
            TokenKind::Extends => "Extends"@,
            TokenKind::For => "For"@,
            TokenKind::Function => "Function"@,
            TokenKind::Generic => "Generic"@,
            TokenKind::GreaterThan => "GreaterThan"@,
            TokenKind::HashDefine => "HashDefine"@,
            TokenKind::HashElse => "HashElse"@,
            TokenKind::HashEndif => "HashEndif"@,
            TokenKind::HashIf => "HashIf"@,
            TokenKind::HashIfdef => "HashIfdef"@,
            TokenKind::HashIfndef => "HashIfndef"@,
            TokenKind::HashUndef => "HashUndef"@,
            TokenKind::Is => "Is"@,
            TokenKind::LessThan => "LessThan"@,
            TokenKind::Loop => "Loop"@,
            TokenKind::Library => "Library"@,
            TokenKind::Limited => "Limited"@,
            TokenKind::Minus => "Minus"@,
            TokenKind::Null => "Null"@,
            TokenKind::OpenParenthesis => "OpenParenthesis"@,
            TokenKind::Others => "Others"@,
            TokenKind::Package => "Package"@,
            TokenKind::Pipe => "Pipe"@,
            TokenKind::Pragma => "Pragma"@,
            TokenKind::Private => "Private"@,
            TokenKind::Procedure => "Procedure"@,
            TokenKind::Project => "Project"@,
            TokenKind::Renames => "Renames"@,
            TokenKind::Semicolon => "Semicolon"@,
            TokenKind::Separate => "Separate"@,
            TokenKind::Tick => "Tick"@,
            TokenKind::Type => "Type"@,
            TokenKind::Use => "Use"@,
            TokenKind::When => "When"@,
            TokenKind::With => "With"@,
            TokenKind::Character(c) => "Character('"@.push(*c) + "')"@,
            TokenKind::InvalidChar(c) => "InvalidChar('"@.push(*c) + "')"@,
            TokenKind::HashInclude(s) => "HashInclude(\""@ + s@ + "\")"@,
            TokenKind::Identifier(s) => "Identifier("@ + s@ + ")"@,
            TokenKind::String(s) => "String("@ + s@ + ")"@,
        }
    }

    /// Display the token, for error messages.
    pub fn describe(&self) -> (r: String)
        ensures
            r@ == self.description(),
    {
        let mut r = String::new();
        match self {
            TokenKind::EndOfFile => push_str(&mut r, "EndOfFile"),
            TokenKind::Abstract => push_str(&mut r, "Abstract"),
            TokenKind::Aggregate => push_str(&mut r, "Aggregate"),
            TokenKind::Ampersand => push_str(&mut r, "Ampersand"),
            TokenKind::Arrow => push_str(&mut r, "Arrow"),
            TokenKind::Assign => push_str(&mut r, "Assign"),
            TokenKind::Body => push_str(&mut r, "Body"),
            TokenKind::Case => push_str(&mut r, "Case"),
            TokenKind::CloseParenthesis => push_str(&mut r, "CloseParenthesis"),
            TokenKind::Colon => push_str(&mut r, "Colon"),
            TokenKind::Comma => push_str(&mut r, "Comma"),
            TokenKind::Dot => push_str(&mut r, "Dot"),
            TokenKind::Equal => push_str(&mut r, "Equal"),
            TokenKind::End => push_str(&mut r, "End"),
            TokenKind::Extends => push_str(&mut r, "Extends"),
            TokenKind::For => push_str(&mut r, "For"),
            TokenKind::Function => push_str(&mut r, "Function"),
            TokenKind::Generic => push_str(&mut r, "Generic"),
            TokenKind::GreaterThan => push_str(&mut r, "GreaterThan"),
            TokenKind::HashDefine => push_str(&mut r, "HashDefine"),
            TokenKind::HashElse => push_str(&mut r, "HashElse"),
            TokenKind::HashEndif => push_str(&mut r, "HashEndif"),
            TokenKind::HashIf => push_str(&mut r, "HashIf"),
            TokenKind::HashIfdef => push_str(&mut r, "HashIfdef"),
            TokenKind::HashIfndef => push_str(&mut r, "HashIfndef"),
            TokenKind::HashUndef => push_str(&mut r, "HashUndef"),
            TokenKind::Is => push_str(&mut r, "Is"),
            TokenKind::LessThan => push_str(&mut r, "LessThan"),
            TokenKind::Loop => push_str(&mut r, "Loop"),
            TokenKind::Library => push_str(&mut r, "Library"),
            TokenKind::Limited => push_str(&mut r, "Limited"),
            TokenKind::Minus => push_str(&mut r, "Minus"),
            TokenKind::Null => push_str(&mut r, "Null"),
            TokenKind::OpenParenthesis => push_str(&mut r, "OpenParenthesis"),
            TokenKind::Others => push_str(&mut r, "Others"),
            TokenKind::Package => push_str(&mut r, "Package"),
            TokenKind::Pipe => push_str(&mut r, "Pipe"),
            TokenKind::Pragma => push_str(&mut r, "Pragma"),
            TokenKind::Private => push_str(&mut r, "Private"),
            TokenKind::Procedure => push_str(&mut r, "Procedure"),
            TokenKind::Project => push_str(&mut r, "Project"),
            TokenKind::Renames => push_str(&mut r, "Renames"),
            TokenKind::Semicolon => push_str(&mut r, "Semicolon"),
            TokenKind::Separate => push_str(&mut r, "Separate"),
            TokenKind::Tick => push_str(&mut r, "Tick"),
            TokenKind::Type => push_str(&mut r, "Type"),
            TokenKind::Use => push_str(&mut r, "Use"),
            TokenKind::When => push_str(&mut r, "When"),
            TokenKind::With => push_str(&mut r, "With"),
            TokenKind::Character(c) => {
                push_str(&mut r, "Character('");
                push_char(&mut r, *c);
                push_str(&mut r, "')");
            },
            TokenKind::InvalidChar(c) => {
                push_str(&mut r, "InvalidChar('");
                push_char(&mut r, *c);
                push_str(&mut r, "')");
            },
            TokenKind::HashInclude(s) => {
                push_str(&mut r, "HashInclude(\"");
                push_str(&mut r, s.as_str());
                push_str(&mut r, "\")");
            },
            TokenKind::Identifier(s) => {
                push_str(&mut r, "Identifier(");
                push_str(&mut r, s.as_str());
                push_str(&mut r, ")");
            },
            TokenKind::String(s) => {
                push_str(&mut r, "String(");
                push_str(&mut r, s.as_str());
                push_str(&mut r, ")");
            },
        }
        r
    }
}

/// Whether the token has no contents.
pub open spec fn is_plain(t: TokenKind) -> bool {
    !(t is Character) && !(t is InvalidChar) && !(t is HashInclude) && !(t is Identifier) && !(t is String)
}

/// A token that is the same as a token without contents is that token.
pub proof fn lemma_same_plain(a: TokenKind, b: TokenKind)
    requires
        a.same(&b),
        is_plain(b),
    ensures
        a == b,
{
}

/// A token, and the line at which it starts.
#[derive(Clone, Debug)]
pub struct Token {
    pub line: u32,
    pub kind: TokenKind,
}

impl Token {
    /// Builds a new token.
    pub fn new(kind: TokenKind, line: u32) -> (r: Self)
        ensures
            r.kind == kind,
            r.line == line,
    {
        Self { line, kind }
    }

    /// How the token is displayed in error messages: `kind:line`.
    pub open spec fn description(&self) -> Seq<char> {
        self.kind.description() + ":"@ + decimal(self.line as nat)
    }

    /// Display the token, for error messages.
    pub fn describe(&self) -> (r: String)
        ensures
            r@ == self.description(),
    {
        let mut r = self.kind.describe();
        push_str(&mut r, ":");
        let l = u32_to_string(self.line);
        push_str(&mut r, l.as_str());
        r
    }
}

} // verus!
