//! A lexer for C and C++ sources: it only needs to find `#include`
//! directives.
use crate::base_lexer::{blanks_end, char_at, lexable, quote_end, word_end, BaseLexer, Context, Lexer};
use crate::strings::spec_is_wordchar;
use crate::errors::Error;
use crate::files::File;
use crate::strings::{str_eq, owned};
use crate::tokens::TokenKind;
use vstd::prelude::*;

verus! {

/// The kind of a token made of a single punctuation character, if any.
pub open spec fn cpp_punct(c: char) -> Option<TokenKind> {
    if c == ')' {
        Some(TokenKind::CloseParenthesis)
    } else if c == ',' {
        Some(TokenKind::Comma)
    } else if c == '.' {
        Some(TokenKind::Dot)
    } else if c == '>' {
        Some(TokenKind::GreaterThan)
    } else if c == '<' {
        Some(TokenKind::LessThan)
    } else if c == '-' {
        Some(TokenKind::Minus)
    } else if c == '(' {
        Some(TokenKind::OpenParenthesis)
    } else if c == ';' {
        Some(TokenKind::Semicolon)
    } else {
        None
    }
}

/// The token `r`, ending at `end`, is the one that starts at offset `o`:
/// the end of the file where there is no character left, a punctuation,
/// an include directive, a string, a name, or an invalid character.
pub open spec fn cpp_scanned(input: Seq<char>, o: int, r: TokenKind, end: int) -> bool {
    let c = char_at(input, o);
    if c == '\0' || (o >= 1 && o <= input.len() && input[o - 1] == '\0' && r is EndOfFile) {
        r is EndOfFile
    } else {
        &&& !is_blank(c)
        &&& match cpp_punct(c) {
            Some(k) => r == k && end == o + 1,
            None => if c == '#' {
                include_token(input, o, r)
            } else if c == '"' {
                true
            } else if spec_is_wordchar(c) {
                r is Identifier || r is Loop
            } else {
                r == TokenKind::InvalidChar(c) && end == o + 1
            },
        }
    }
}

/// The token read from a `#` at `o`: where the directive word after the
/// blanks is `include`, and a string follows it after more blanks, the
/// token is that include, with the text between the quotes.
pub open spec fn include_token(s: Seq<char>, o: int, r: TokenKind) -> bool {
    let a = blanks_end(s, o + 1);
    let w = word_end(s, a + 1);
    let b = blanks_end(s, w);
    let e = quote_end(s, b + 1);
    (a < s.len() && s.subrange(a, w) == "include"@ && b < s.len() && e < s.len() && s[e] == '"') ==> (r matches TokenKind::HashInclude(
        p,
    ) && p@ == s.subrange(b + 1, e))
}

/// The text at `o` is `#include "p"`: `#`, blanks up to `a`, `include`,
/// blanks up to `b`, then `p` between double quotes.
pub open spec fn include_directive(s: Seq<char>, o: int, a: int, b: int, p: Seq<char>) -> bool {
    &&& 0 <= o < a
    &&& a + 7 <= b
    &&& b + 1 + p.len() < s.len()
    &&& s[o] == '#'
    &&& forall|j: int| o < j < a ==> #[trigger] s[j] == ' ' || s[j] == '\t'
    &&& s.subrange(a, a + 7) == "include"@
    &&& forall|j: int| a + 7 <= j < b ==> #[trigger] s[j] == ' ' || s[j] == '\t'
    &&& s[b] == '"'
    &&& s.subrange(b + 1, b + 1 + p.len()) == p
    &&& s[b + 1 + p.len()] == '"'
    &&& forall|j: int| 0 <= j < p.len() ==> #[trigger] p[j] != '"' && p[j] != '\0'
}

/// Blanks from `i` up to `j`, which is not one, end at `j`.
proof fn lemma_blanks_end_at(s: Seq<char>, i: int, j: int)
    requires
        i <= j,
        forall|k: int| i <= k < j ==> #[trigger] s[k] == ' ' || s[k] == '\t',
        j < s.len() && !(s[j] == ' ' || s[j] == '\t'),
    ensures
        blanks_end(s, i) == j,
    decreases j - i,
{
    if i < j {
        lemma_blanks_end_at(s, i + 1, j);
    }
}

/// Name characters from `i` up to `j`, which is not one, end at `j`.
proof fn lemma_word_end_at(s: Seq<char>, i: int, j: int)
    requires
        i <= j,
        forall|k: int| i <= k < j ==> #[trigger] spec_is_wordchar(s[k]),
        j < s.len() && !spec_is_wordchar(s[j]),
    ensures
        word_end(s, i) == j,
    decreases j - i,
{
    if i < j {
        lemma_word_end_at(s, i + 1, j);
    }
}

/// A string from `i` up to the quote at `j` ends at `j`.
proof fn lemma_quote_end_at(s: Seq<char>, i: int, j: int)
    requires
        i <= j,
        forall|k: int| i <= k < j ==> #[trigger] s[k] != '"' && s[k] != '\0',
        j < s.len() && s[j] == '"',
    ensures
        quote_end(s, i) == j,
    decreases j - i,
{
    if i < j {
        lemma_quote_end_at(s, i + 1, j);
    }
}

/// `#include "p"` is read as an include of `p`, the text between the
/// quotes (unless an earlier NUL character ended the input).
pub proof fn law_include_path(s: Seq<char>, o: int, a: int, b: int, p: Seq<char>, r: TokenKind, end: int)
    requires
        cpp_scanned(s, o, r, end),
        include_directive(s, o, a, b, p),
        o == 0 || s[o - 1] != '\0',
    ensures
        r matches TokenKind::HashInclude(q) && q@ == p,
{
    reveal_strlit("include");
    assert(char_at(s, o) == '#');
    assert(s[a] == 'i') by {
        assert(s.subrange(a, a + 7)[0] == s[a]);
    }
    lemma_blanks_end_at(s, o + 1, a);
    assert forall|k: int| a + 1 <= k < a + 7 implies #[trigger] spec_is_wordchar(s[k]) by {
        assert(s.subrange(a, a + 7)[k - a] == s[k]);
    }
    lemma_word_end_at(s, a + 1, a + 7);
    lemma_blanks_end_at(s, a + 7, b);
    let e = b + 1 + p.len();
    assert forall|k: int| b + 1 <= k < e implies #[trigger] s[k] != '"' && s[k] != '\0' by {
        assert(s.subrange(b + 1, e)[k - b - 1] == s[k]);
        assert(p[k - b - 1] == s[k]);
    }
    lemma_quote_end_at(s, b + 1, e);
    assert(s.subrange(a, word_end(s, a + 1)) == "include"@);
}

/// A blank character, skipped between tokens.
pub open spec fn is_blank(c: char) -> bool {
    c == '\n' || c == ' ' || c == '\t' || c == '\r' || c == '\x0c'
}

/// A lexer for C and C++.
pub struct CppLexer {
    pub base: BaseLexer,
}

impl CppLexer {
    /// Builds a new lexer for the file.
    pub fn new(file: &File) -> (r: Self)
        requires
            lexable(file.buffer@),
        ensures
            r.base.wf(),
            r.base.input@ == file.buffer@,
            r.base.path == file.path,
            r.base.context.offset == 0,
    {
        Self { base: BaseLexer::new(file) }
    }

    /// Skips white spaces, comments and preprocessor directives other than
    /// `#include`.  Returns the first character of the next token.
    fn skip_non_tokens(&mut self, current: char) -> (r: char)
        requires
            old(self).base.wf(),
            current == old(self).base.context.current,
        ensures
            final(self).base.wf(),
            final(self).base.input == old(self).base.input,
            final(self).base.path == old(self).base.path,
            final(self).base.context.offset >= old(self).base.context.offset,
            r == final(self).base.context.current || r == '\0',
            // The next token starts on a character that is not blank (or
            // there is none).
            r == '\0' || !is_blank(r),
            r != '\0' ==> r == final(self).base.context.current,
            r == '\0' ==> final(self).base.context.current == '\0' || (final(self).base.context.offset >= 1
                && final(self).base.input@[final(self).base.context.offset - 1] == '\0'),
            // Comments are skipped: the next token does not start one.
            r == '/' ==> !(final(self).base.context.offset + 1 < final(self).base.input@.len() && (
            final(self).base.input@[final(self).base.context.offset + 1] == '*'
                || final(self).base.input@[final(self).base.context.offset + 1] == '/')),
    {
        let mut in_comment = false;
        let mut c = current;
        loop
            invariant
                self.base.wf(),
                self.base.input == old(self).base.input,
                self.base.path == old(self).base.path,
                self.base.context.offset >= old(self).base.context.offset,
                c == self.base.context.current,
            ensures
                self.base.wf(),
                self.base.input == old(self).base.input,
                self.base.path == old(self).base.path,
                self.base.context.offset >= old(self).base.context.offset,
                !is_blank(self.base.context.current),
                self.base.context.current == '/' ==> !(self.base.context.offset + 1 < self.base.input@.len() && (
                self.base.input@[self.base.context.offset + 1] == '*' || self.base.input@[self.base.context.offset + 1]
                    == '/')),
            decreases self.base.input@.len() - self.base.context.offset,
        {
            let ghost iter_start = self.base.context.offset;
            if c == '\n' || c == ' ' || c == '\t' || c == '\r' || c == '\x0c' {
            } else if c == '/' && !in_comment {
                match self.base.peek_char() {
                    Some('*') => {
                        self.base.scan_char();  // consume '/'
                        self.base.scan_char();  // consume '*'
                        in_comment = true;
                    },
                    Some('/') => {
                        self.base.skip_to_eol();
                    },
                    _ => break,
                }
            } else if c == '*' && in_comment {
                if let Some('/') = self.base.peek_char() {
                    self.base.scan_char();  //  consume '/'
                    in_comment = false;
                }
            } else if c == '#' && !in_comment {
                // Skip all preprocessor directives, except for #include
                // which we need for dependencies
                let ctx = self.base.save_context();
                self.base.scan_char();  //  consume '#'
                self.base.skip_whitespaces();
                if self.base.context.offset >= self.base.input.len() {
                    return self.base.context.current;
                }
                let directive = self.base.scan_identifier();
                if str_eq(directive.as_str(), "include") {
                    self.base.restore_context(ctx);
                    break;
                }
                loop
                    invariant
                        self.base.wf(),
                        self.base.input == old(self).base.input,
                        self.base.path == old(self).base.path,
                        self.base.context.offset >= old(self).base.context.offset,
                        self.base.context.offset >= iter_start,
                    decreases self.base.input@.len() - self.base.context.offset,
                {
                    if self.base.context.offset >= self.base.input.len() {
                        return self.base.context.current;
                    }
                    let last = self.base.skip_to_eol();
                    if last == '\\' {
                        if self.base.context.offset >= self.base.input.len() {
                            return self.base.context.current;
                        }
                        self.base.scan_char();  // skip newline
                    } else if last == '\0' {
                        return '\0';
                    } else {
                        break;
                    }
                }
            } else if !in_comment {
                break;
            }
            if self.base.context.offset >= self.base.input.len() {
                // End of the input (for instance in an unterminated comment)
                return self.base.context.current;
            }
            c = self.base.scan_char();
        }
        self.base.context.current
    }

    /// Scans an identifier or the keyword `loop`.  Identifiers keep their
    /// casing.
    fn scan_identifier_or_keyword(&mut self) -> (r: TokenKind)
        requires
            old(self).base.wf(),
            old(self).base.context.offset < old(self).base.input@.len(),
        ensures
            final(self).base.wf(),
            final(self).base.input == old(self).base.input,
            final(self).base.path == old(self).base.path,
            final(self).base.context.offset > old(self).base.context.offset,
            ({
                let word = old(self).base.input@.subrange(
                    old(self).base.context.offset as int,
                    final(self).base.context.offset as int,
                );
                if word == "loop"@ {
                    r is Loop
                } else {
                    r matches TokenKind::Identifier(id) && id@ == word
                }
            }),
    {
        proof {
            crate::base_lexer::lemma_word_end(self.base.input@, self.base.context.offset + 1);
        }
        let n = self.base.scan_identifier();
        if str_eq(n.as_str(), "loop") {
            TokenKind::Loop
        } else {
            TokenKind::Identifier(n)
        }
    }

    /// Scans an `#include` directive, and returns the included path.
    fn scan_include(&mut self) -> (r: TokenKind)
        requires
            old(self).base.wf(),
            old(self).base.context.current == '#',
        ensures
            final(self).base.wf(),
            final(self).base.input == old(self).base.input,
            final(self).base.path == old(self).base.path,
            final(self).base.context.offset > old(self).base.context.offset,
            include_token(old(self).base.input@, old(self).base.context.offset as int, r),
    {
        proof {
            reveal_strlit("include");
        }
        self.base.scan_char();  // consume '#'
        self.base.skip_whitespaces();
        if self.base.context.offset >= self.base.input.len() {
            return TokenKind::EndOfFile;
        }
        let directive = self.base.scan_identifier();
        if !str_eq(directive.as_str(), "include") {
            return TokenKind::InvalidChar('#');
        }
        self.base.skip_whitespaces();
        if self.base.context.offset >= self.base.input.len() {
            return TokenKind::EndOfFile;
        }
        match self.base.scan_quote() {
            TokenKind::String(n) => TokenKind::HashInclude(n),
            _ => TokenKind::EndOfFile,
        }
    }
}

impl Lexer for CppLexer {
    open spec fn wf(&self) -> bool {
        self.base.wf()
    }

    open spec fn remaining(&self) -> nat {
        self.base.remaining()
    }

    open spec fn ctx(&self) -> Context {
        self.base.context
    }

    open spec fn produces(self, kind: TokenKind, next: Self) -> bool {
        &&& next.base.input == self.base.input
        &&& next.base.path == self.base.path
    }

    fn error_with_location(&self, error: Error) -> (r: Error) {
        self.base.error_with_location(error)
    }

    fn save_context(&self) -> (r: Context) {
        self.base.save_context()
    }

    fn scan_token(&mut self, current: char) -> (r: TokenKind)
        ensures
            final(self).base.input == old(self).base.input,
            final(self).base.path == old(self).base.path,
            // The token starts at the first character that is not skipped.
            old(self).base.wf() && current == old(self).base.context.current ==> exists|o: int|
                old(self).base.context.offset <= o <= final(self).base.context.offset && #[trigger] cpp_scanned(
                    old(self).base.input@,
                    o,
                    r,
                    final(self).base.context.offset as int,
                ),
    {
        let c = self.skip_non_tokens(current);
        let ghost o = self.base.context.offset as int;
        proof {
            assert(cpp_scanned(self.base.input@, o, TokenKind::EndOfFile, o) <== c == '\0');
        }
        let kind = if c == '\0' {
            return TokenKind::EndOfFile;
        } else if c == ')' {
            TokenKind::CloseParenthesis
        } else if c == ',' {
            TokenKind::Comma
        } else if c == '.' {
            TokenKind::Dot
        } else if c == '>' {
            TokenKind::GreaterThan
        } else if c == '<' {
            TokenKind::LessThan
        } else if c == '-' {
            TokenKind::Minus
        } else if c == '(' {
            TokenKind::OpenParenthesis
        } else if c == ';' {
            TokenKind::Semicolon
        } else if c == '#' {
            let k = self.scan_include();
            proof {
                assert(cpp_scanned(old(self).base.input@, o, k, self.base.context.offset as int));
            }
            return k;
        } else if c == '"' {
            let k = self.base.scan_quote();
            proof {
                assert(cpp_scanned(old(self).base.input@, o, k, self.base.context.offset as int));
            }
            return k;
        } else if self.base.is_wordchar() {
            let k = self.scan_identifier_or_keyword();
            proof {
                assert(cpp_scanned(old(self).base.input@, o, k, self.base.context.offset as int));
            }
            return k;
        } else {
            TokenKind::InvalidChar(c)
        };
        self.base.scan_char();
        proof {
            assert(cpp_scanned(old(self).base.input@, o, kind, self.base.context.offset as int));
        }
        kind
    }
}

} // verus!
