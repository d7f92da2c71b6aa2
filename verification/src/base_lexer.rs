//! Services shared by all lexers: reading characters from a buffer,
//! and a token scanner with one token of look-ahead.
use crate::errors::Error;
use crate::files::File;
use crate::qnames::QName;
use crate::strings::{chars_of, is_wordchar, spec_is_wordchar, string_from_chars};
use crate::tokens::{is_plain, lemma_same_plain, Token, TokenKind};
use vstd::prelude::*;

verus! {

/// The character at position `i`, or `'\0'` past the end of the input.
pub open spec fn char_at(s: Seq<char>, i: int) -> char {
    if 0 <= i < s.len() {
        s[i]
    } else {
        '\0'
    }
}

/// Number of newlines read when moving from the first character of the
/// input to the character at `off` (the first character itself is not
/// counted).
pub open spec fn lines_upto(s: Seq<char>, off: int) -> nat
    decreases off,
{
    if off <= 0 {
        0
    } else {
        lines_upto(s, off - 1) + (if off < s.len() && s[off] == '\n' { 1nat } else { 0nat })
    }
}

/// The first position at or after `i` where a string literal stops: a
/// closing quote, a NUL character, or the end of the input.
pub open spec fn quote_end(s: Seq<char>, i: int) -> int
    decreases s.len() - i,
{
    if i >= s.len() || s[i] == '"' || s[i] == '\0' {
        i
    } else {
        quote_end(s, i + 1)
    }
}

/// The first position at or after `i` which is an end of line, a NUL
/// character, or the end of the input.
pub open spec fn eol_from(s: Seq<char>, i: int) -> int
    decreases s.len() - i,
{
    if i >= s.len() || s[i] == '\n' || s[i] == '\0' {
        i
    } else {
        eol_from(s, i + 1)
    }
}

/// The first position at or after `i` which is `marker`, a NUL character,
/// or the end of the input.
pub open spec fn marker_from(s: Seq<char>, i: int, marker: char) -> int
    decreases s.len() - i,
{
    if i >= s.len() || s[i] == marker || s[i] == '\0' {
        i
    } else {
        marker_from(s, i + 1, marker)
    }
}

/// The first position at or after `i` which is not part of an identifier.
pub open spec fn word_end(s: Seq<char>, i: int) -> int
    decreases s.len() - i,
{
    if i >= s.len() || !spec_is_wordchar(s[i]) {
        i
    } else {
        word_end(s, i + 1)
    }
}

/// The first position at or after `i` which is neither a space nor a tab.
pub open spec fn blanks_end(s: Seq<char>, i: int) -> int
    decreases s.len() - i,
{
    if i >= s.len() || !(s[i] == ' ' || s[i] == '\t') {
        i
    } else {
        blanks_end(s, i + 1)
    }
}

pub proof fn lemma_quote_end(s: Seq<char>, i: int)
    requires
        0 <= i <= s.len(),
    ensures
        i <= quote_end(s, i) <= s.len(),
        forall|k: int| i <= k < quote_end(s, i) ==> s[k] != '"' && s[k] != '\0',
        quote_end(s, i) < s.len() ==> (s[quote_end(s, i)] == '"' || s[quote_end(s, i)] == '\0'),
    decreases s.len() - i,
{
    if !(i >= s.len() || s[i] == '"' || s[i] == '\0') {
        lemma_quote_end(s, i + 1);
    }
}

pub proof fn lemma_eol_from(s: Seq<char>, i: int)
    requires
        0 <= i <= s.len(),
    ensures
        i <= eol_from(s, i) <= s.len(),
        forall|k: int| i <= k < eol_from(s, i) ==> s[k] != '\n' && s[k] != '\0',
        eol_from(s, i) < s.len() ==> (s[eol_from(s, i)] == '\n' || s[eol_from(s, i)] == '\0'),
    decreases s.len() - i,
{
    if !(i >= s.len() || s[i] == '\n' || s[i] == '\0') {
        lemma_eol_from(s, i + 1);
    }
}

pub proof fn lemma_marker_from(s: Seq<char>, i: int, marker: char)
    requires
        0 <= i <= s.len(),
    ensures
        i <= marker_from(s, i, marker) <= s.len(),
        forall|k: int| i <= k < marker_from(s, i, marker) ==> s[k] != marker && s[k] != '\0',
        marker_from(s, i, marker) < s.len() ==> (s[marker_from(s, i, marker)] == marker
            || s[marker_from(s, i, marker)] == '\0'),
    decreases s.len() - i,
{
    if !(i >= s.len() || s[i] == marker || s[i] == '\0') {
        lemma_marker_from(s, i + 1, marker);
    }
}

pub proof fn lemma_word_end(s: Seq<char>, i: int)
    requires
        0 <= i <= s.len(),
    ensures
        i <= word_end(s, i) <= s.len(),
        forall|k: int| i <= k < word_end(s, i) ==> spec_is_wordchar(s[k]),
        word_end(s, i) < s.len() ==> !spec_is_wordchar(s[word_end(s, i)]),
    decreases s.len() - i,
{
    if !(i >= s.len() || !spec_is_wordchar(s[i])) {
        lemma_word_end(s, i + 1);
    }
}

/// The text fits the lexer: its characters can be addressed (no text
/// held in memory has more), and its lines fit in the line counter.
pub open spec fn lexable(s: Seq<char>) -> bool {
    &&& s.len() < isize::MAX
    &&& 1 + lines_upto(s, s.len() as int) < u32::MAX
}

/// Moving forward never decreases the line.
pub proof fn lemma_lines_upto_mono(s: Seq<char>, a: int, b: int)
    requires
        a <= b,
    ensures
        lines_upto(s, a) <= lines_upto(s, b),
    decreases b - a,
{
    if a < b {
        lemma_lines_upto_mono(s, a, b - 1);
    }
}

/// Whether the text fits the lexer.
pub fn lexable_text(text: &str) -> (r: bool)
    ensures
        r == lexable(text@),
{
    if text.unicode_len() >= isize::MAX as usize {
        return false;
    }
    let v = chars_of(text);
    let mut n: u32 = 0;
    let mut i: usize = 1;
    if v.len() == 0 {
        assert(lines_upto(text@, 0) == 0);
        return true;
    }
    while i < v.len()
        invariant
            v@ == text@,
            1 <= i <= v@.len(),
            n as int == lines_upto(text@, (i - 1) as int),
            n < u32::MAX - 1,
        decreases v.len() - i,
    {
        if v[i] == '\n' {
            if n + 2 >= u32::MAX {
                proof {
                    assert(lines_upto(text@, i as int) == n + 1);
                    lemma_lines_upto_mono(text@, i as int, text@.len() as int);
                }
                return false;
            }
            n = n + 1;
        }
        i = i + 1;
    }
    proof {
        assert(lines_upto(text@, text@.len() as int) == lines_upto(text@, text@.len() - 1));
    }
    true
}

pub proof fn lemma_lines_upto_bound(s: Seq<char>, off: int)
    ensures
        lines_upto(s, off) <= if off < 0 { 0 } else { off },
    decreases off,
{
    if off > 0 {
        lemma_lines_upto_bound(s, off - 1);
    }
}

/// The position in the stream: the next character to process, the source
/// line it is at, and the offset at which we read it.
#[derive(Copy, Clone)]
pub struct Context {
    pub offset: usize,
    pub line: u32,
    pub current: char,
}

impl Context {
    /// Builds a token located at the context's line.
    pub fn build_token(&self, kind: TokenKind) -> (r: Token)
        ensures
            r.kind == kind,
            r.line == self.line,
    {
        Token { kind, line: self.line }
    }
}

/// All base services shared by lexers.
pub struct BaseLexer {
    pub path: String,
    pub input: Vec<char>,
    pub context: Context,
}

impl BaseLexer {
    /// The lexer's position is consistent with its input.
    pub open spec fn wf(&self) -> bool {
        &&& self.context.offset <= self.input@.len()
        &&& lexable(self.input@)
        &&& self.context.current == char_at(self.input@, self.context.offset as int)
        &&& self.context.line == 1 + lines_upto(self.input@, self.context.offset as int)
    }

    /// Number of characters not consumed yet.
    pub open spec fn remaining(&self) -> nat {
        (self.input@.len() - self.context.offset) as nat
    }

    /// Builds a new lexer, positioned on the first character of the file.
    pub fn new(file: &File) -> (r: Self)
        requires
            lexable(file.buffer@),
        ensures
            r.wf(),
            r.input@ == file.buffer@,
            r.path == file.path,
            r.context.offset == 0,
    {
        let input = chars_of(file.buffer.as_str());
        let path = file.path.clone();
        let current = if input.len() > 0 { input[0] } else { '\0' };
        Self { path, context: Context { current, line: 1, offset: 0 }, input }
    }

    /// Save the position in the stream.  Useful when we need to backtrack.
    pub fn save_context(&self) -> (r: Context)
        ensures
            r == self.context,
    {
        self.context
    }

    /// Restore a position in the stream that was saved earlier.
    pub fn restore_context(&mut self, ctx: Context)
        ensures
            final(self).context == ctx,
            final(self).input == old(self).input,
            final(self).path == old(self).path,
    {
        self.context = ctx;
    }

    /// Whether the current character is valid for an identifier.
    pub fn is_wordchar(&self) -> (r: bool)
        ensures
            r == spec_is_wordchar(self.context.current),
    {
        is_wordchar(self.context.current)
    }

    /// Wraps an error with location information, so that we can report
    /// which file+line the error occurred at.
    pub fn error_with_location(&self, error: Error) -> (r: Error)
        ensures
            r == (Error::WithLocation {
                path: self.path,
                line: self.context.line,
                error: Box::new(error),
            }),
    {
        Error::WithLocation { path: self.path.clone(), line: self.context.line, error: Box::new(error) }
    }

    /// Consumes one character.  The following character is both returned
    /// and made available in `context.current`.  At end of file, it is `'\0'`.
    pub fn scan_char(&mut self) -> (r: char)
        requires
            old(self).wf(),
            old(self).context.offset < old(self).input@.len(),
        ensures
            final(self).wf(),
            final(self).input == old(self).input,
            final(self).path == old(self).path,
            final(self).context.offset == old(self).context.offset + 1,
            r == final(self).context.current,
            r == char_at(old(self).input@, old(self).context.offset + 1),
    {
        proof {
            lemma_lines_upto_mono(self.input@, self.context.offset + 1, self.input@.len() as int);
        }
        self.context.offset = self.context.offset + 1;
        if self.context.offset < self.input.len() {
            let c = self.input[self.context.offset];
            if c == '\n' {
                self.context.line = self.context.line + 1;
            }
            self.context.current = c;
        } else {
            self.context.current = '\0';
        }
        self.context.current
    }

    /// Peek at the character following the current one, without consuming it.
    pub fn peek_char(&self) -> (r: Option<char>)
        requires
            self.wf(),
            self.context.offset < self.input@.len(),
        ensures
            self.context.offset + 1 < self.input@.len() ==> r == Some(
                self.input@[self.context.offset + 1],
            ),
            self.context.offset + 1 >= self.input@.len() ==> r is None,
    {
        if self.context.offset + 1 < self.input.len() {
            Some(self.input[self.context.offset + 1])
        } else {
            None
        }
    }

    /// Scans a string literal.  On input, the current character is the
    /// leading quote (which is not checked).  An unterminated string results
    /// in an end of file.
    pub fn scan_quote(&mut self) -> (r: TokenKind)
        requires
            old(self).wf(),
            old(self).context.offset < old(self).input@.len(),
        ensures
            final(self).wf(),
            final(self).input == old(self).input,
            final(self).path == old(self).path,
            ({
                let s = old(self).input@;
                let start = old(self).context.offset + 1;
                let stop = quote_end(s, start);
                &&& final(self).context.offset > old(self).context.offset
                &&& if stop < s.len() && s[stop] == '"' {
                    &&& r matches TokenKind::String(v) && v@ == s.subrange(start, stop)
                    &&& final(self).context.offset == stop + 1
                } else {
                    &&& r is EndOfFile
                    &&& final(self).context.offset == stop
                }
            }),
    {
        let ghost s = self.input@;
        proof {
            lemma_quote_end(s, self.context.offset + 1);
        }
        self.scan_char();
        let start_offset = self.context.offset;
        loop
            invariant
                self.wf(),
                self.input@ == s,
                self.path == old(self).path,
                self.input == old(self).input,
                start_offset == old(self).context.offset + 1,
                start_offset <= self.context.offset <= quote_end(s, start_offset as int),
                quote_end(s, start_offset as int) <= s.len(),
                quote_end(s, start_offset as int) == quote_end(s, self.context.offset as int),
            decreases s.len() - self.context.offset,
        {
            let c = self.context.current;
            proof {
                if self.context.offset < s.len() {
                    lemma_quote_end(s, self.context.offset + 1);
                }
            }
            if c == '\0' {
                return TokenKind::EndOfFile;
            }
            if c == '"' {
                let end_offset = self.context.offset;
                self.scan_char();
                let v = string_from_chars(self.input.as_slice(), start_offset, end_offset);
                return TokenKind::String(v);
            }
            self.scan_char();
        }
    }

    /// Skip all characters until end of line (which is not consumed).
    /// Returns the last character of the line (useful to detect line
    /// continuations), or `'\0'` at end of file.
    pub fn skip_to_eol(&mut self) -> (r: char)
        requires
            old(self).wf(),
            old(self).context.offset < old(self).input@.len(),
        ensures
            final(self).wf(),
            final(self).input == old(self).input,
            final(self).path == old(self).path,
            final(self).context.offset == eol_from(old(self).input@, old(self).context.offset + 1),
            final(self).context.offset > old(self).context.offset,
            final(self).context.current == '\0' ==> r == '\0',
            final(self).context.current != '\0' ==> r == old(self).input@[final(self).context.offset - 1],
    {
        let ghost s = self.input@;
        proof {
            lemma_eol_from(s, self.context.offset + 1);
        }
        let mut prev = self.context.current;
        loop
            invariant
                self.wf(),
                self.input@ == s,
                self.path == old(self).path,
                self.input == old(self).input,
                eol_from(s, old(self).context.offset + 1) <= s.len(),
                old(self).context.offset <= self.context.offset < eol_from(
                    s,
                    old(self).context.offset + 1,
                ),
                eol_from(s, old(self).context.offset + 1) == eol_from(s, self.context.offset + 1),
                prev == s[self.context.offset as int],
            decreases s.len() - self.context.offset,
        {
            proof {
                lemma_eol_from(s, self.context.offset + 1);
                if self.context.offset + 2 <= s.len() {
                    lemma_eol_from(s, self.context.offset + 2);
                }
            }
            let c = self.scan_char();
            if c == '\n' {
                return prev;
            }
            if c == '\0' {
                return '\0';
            }
            prev = c;
        }
    }

    /// Skip until the given character, and return the matching substring not
    /// including the final marker.  The final marker has been skipped and will
    /// not be seen again.  The current character is also not included in the
    /// substring.
    pub fn skip_to_char(&mut self, marker: char) -> (r: String)
        requires
            old(self).wf(),
            marker_from(old(self).input@, old(self).context.offset + 1, marker)
                < old(self).input@.len(),
        ensures
            final(self).wf(),
            final(self).input == old(self).input,
            final(self).path == old(self).path,
            ({
                let s = old(self).input@;
                let start = old(self).context.offset + 1;
                let stop = marker_from(s, start, marker);
                &&& r@ == s.subrange(start, stop)
                &&& final(self).context.offset == stop + 1
            }),
    {
        let ghost s = self.input@;
        proof {
            lemma_marker_from(s, self.context.offset + 1, marker);
        }
        let mut c = self.scan_char();
        let start_offset = self.context.offset;
        while !(c == marker || c == '\0')
            invariant
                self.wf(),
                self.input@ == s,
                self.path == old(self).path,
                self.input == old(self).input,
                start_offset == old(self).context.offset + 1,
                start_offset <= self.context.offset <= marker_from(s, start_offset as int, marker),
                marker_from(s, start_offset as int, marker) == marker_from(
                    s,
                    self.context.offset as int,
                    marker,
                ),
                marker_from(s, start_offset as int, marker) < s.len(),
                c == self.context.current,
            decreases s.len() - self.context.offset,
        {
            proof {
                lemma_marker_from(s, self.context.offset + 1, marker);
            }
            c = self.scan_char();
        }
        let end_offset = self.context.offset;
        self.scan_char();
        string_from_chars(self.input.as_slice(), start_offset, end_offset)
    }

    /// Get the next identifier (which might end up being a keyword, but that
    /// will be tested by each language-specific lexer).
    pub fn scan_identifier(&mut self) -> (r: String)
        requires
            old(self).wf(),
            old(self).context.offset < old(self).input@.len(),
        ensures
            final(self).wf(),
            final(self).input == old(self).input,
            final(self).path == old(self).path,
            ({
                let s = old(self).input@;
                let start = old(self).context.offset as int;
                let stop = word_end(s, start + 1);
                &&& r@ == s.subrange(start, stop)
                &&& final(self).context.offset == stop
            }),
            final(self).context.offset > old(self).context.offset,
    {
        let ghost s = self.input@;
        proof {
            lemma_word_end(s, self.context.offset + 1);
        }
        let start_offset = self.context.offset;
        loop
            invariant_except_break
                start_offset <= self.context.offset < word_end(s, start_offset + 1),
                word_end(s, start_offset + 1) == word_end(s, self.context.offset + 1),
            invariant
                self.wf(),
                self.input@ == s,
                self.path == old(self).path,
                self.input == old(self).input,
                start_offset == old(self).context.offset,
                word_end(s, start_offset + 1) <= s.len(),
            ensures
                self.context.offset == word_end(s, start_offset + 1),
            decreases s.len() - self.context.offset,
        {
            proof {
                lemma_word_end(s, self.context.offset + 1);
                if self.context.offset + 2 <= s.len() {
                    lemma_word_end(s, self.context.offset + 2);
                }
            }
            self.scan_char();
            if !self.is_wordchar() {
                break;
            }
        }
        string_from_chars(self.input.as_slice(), start_offset, self.context.offset)
    }

    /// Skip spaces and tabs.
    pub fn skip_whitespaces(&mut self)
        requires
            old(self).wf(),
        ensures
            final(self).wf(),
            final(self).input == old(self).input,
            final(self).path == old(self).path,
            final(self).context.offset == blanks_end(old(self).input@, old(self).context.offset as int),
            final(self).context.offset >= old(self).context.offset,
    {
        let ghost s = self.input@;
        while self.context.current == ' ' || self.context.current == '\t'
            invariant
                self.wf(),
                self.input@ == s,
                self.path == old(self).path,
                self.input == old(self).input,
                blanks_end(s, old(self).context.offset as int) == blanks_end(s, self.context.offset as int),
                self.context.offset >= old(self).context.offset,
            decreases s.len() - self.context.offset,
        {
            self.scan_char();
        }
    }
}

/// Services that each language-specific lexer provides.
pub trait Lexer {
    /// The lexer's position is consistent with its input.
    spec fn wf(&self) -> bool;

    /// Number of characters not consumed yet.
    spec fn remaining(&self) -> nat;

    /// The current position.
    spec fn ctx(&self) -> Context;

    /// Whether the lexer, in state `self`, reads a token of kind `kind` and
    /// reaches state `next`.
    spec fn produces(self, kind: TokenKind, next: Self) -> bool;

    /// Scan the next token.  The last character read, which hasn't been
    /// processed yet, is `current`.  Every token but the end of file
    /// consumes at least one character.
    fn scan_token(&mut self, current: char) -> (r: TokenKind)
        requires
            old(self).wf(),
            current == old(self).ctx().current,
        ensures
            final(self).wf(),
            final(self).remaining() <= old(self).remaining(),
            !(r is EndOfFile) ==> final(self).remaining() < old(self).remaining(),
            old(self).produces(r, *final(self)),
    ;

    /// Decorate an error to indicate precisely where the error occurred.
    fn error_with_location(&self, error: Error) -> (r: Error)
        ensures
            r matches Error::WithLocation { line, error: e, .. } && line == self.ctx().line && *e
                == error,
    ;

    /// The current position.
    fn save_context(&self) -> (r: Context)
        ensures
            r == self.ctx(),
    ;
}

/// `a` is the beginning of `b`.
pub open spec fn prefix_of(a: Seq<Token>, b: Seq<Token>) -> bool {
    a.len() <= b.len() && forall|i: int| 0 <= i < a.len() ==> #[trigger] b[i] == a[i]
}

/// What was consumed from `a` to `c` is what was consumed from `a` to `b`,
/// then from `b` to `c`.
pub proof fn lemma_read_concat(a: Seq<Token>, b: Seq<Token>, c: Seq<Token>)
    requires
        prefix_of(a, b),
        prefix_of(b, c),
    ensures
        prefix_of(a, c),
        c.subrange(a.len() as int, c.len() as int) == b.subrange(a.len() as int, b.len() as int) + c.subrange(
            b.len() as int,
            c.len() as int,
        ),
{
    assert(c.subrange(a.len() as int, c.len() as int) =~= b.subrange(a.len() as int, b.len() as int) + c.subrange(
        b.len() as int,
        c.len() as int,
    ));
}

/// A scanner on top of a lexer, with one token of look-ahead.
pub struct BaseScanner<LEXER: Lexer> {
    pub lex: LEXER,
    /// One token ahead
    pub peeked: Token,
    /// The tokens consumed so far, in order.
    pub read: Ghost<Seq<Token>>,
    /// The state of the lexer before it read its first token.
    pub start: Ghost<LEXER>,
    /// All the tokens that the lexer produced, the one looked at included.
    pub lexed: Ghost<Seq<Token>>,
}

/// The tokens other than ends of file.
pub open spec fn non_eof(t: Seq<Token>) -> Seq<Token>
    decreases t.len(),
{
    if t.len() == 0 {
        t
    } else if t.last().kind is EndOfFile {
        non_eof(t.drop_last())
    } else {
        non_eof(t.drop_last()).push(t.last())
    }
}

/// When the ends of file come after all other tokens, removing them leaves
/// the tokens before the first one.
pub proof fn lemma_non_eof_prefix(t: Seq<Token>, f: int)
    requires
        0 <= f <= t.len(),
        forall|i: int| 0 <= i < f ==> !(#[trigger] t[i].kind is EndOfFile),
        forall|i: int| f <= i < t.len() ==> #[trigger] t[i].kind is EndOfFile,
    ensures
        non_eof(t) == t.subrange(0, f),
    decreases t.len(),
{
    if t.len() > 0 {
        let d = t.drop_last();
        if f == t.len() {
            lemma_non_eof_prefix(d, f - 1);
            assert(t.subrange(0, f) =~= d.subrange(0, f - 1).push(t.last()));
        } else {
            lemma_non_eof_prefix(d, f);
            assert(t.subrange(0, f) =~= d.subrange(0, f));
        }
    }
}

/// Whether the lexer, from state `a`, reads the tokens `toks` (each at the
/// line where the lexer was when it started reading it) and reaches state
/// `b`.
pub open spec fn lexes<L: Lexer>(a: L, toks: Seq<Token>, b: L) -> bool
    decreases toks.len(),
{
    if toks.len() == 0 {
        a == b
    } else {
        exists|mid: L|
            #[trigger] mid.produces(toks.last().kind, b) && toks.last().line == mid.ctx().line && lexes(
                a,
                toks.drop_last(),
                mid,
            )
    }
}

/// The kinds of a sequence of tokens.
pub open spec fn kinds(t: Seq<Token>) -> Seq<TokenKind> {
    t.map_values(|x: Token| x.kind)
}

/// The tokens of a qualified name: its components separated by dots.
pub open spec fn qname_kinds(q: Seq<String>) -> Seq<TokenKind>
    decreases q.len(),
{
    if q.len() <= 1 {
        q.map_values(|x: String| TokenKind::Identifier(x))
    } else {
        qname_kinds(q.drop_last()) + seq![TokenKind::Dot, TokenKind::Identifier(q.last())]
    }
}

/// The number of parentheses left open after the tokens (it never grows
/// past `usize::MAX`, nor goes below zero).
pub open spec fn paren_depth(ks: Seq<TokenKind>) -> nat
    decreases ks.len(),
{
    if ks.len() == 0 {
        0
    } else {
        let d = paren_depth(ks.drop_last());
        match ks.last() {
            TokenKind::OpenParenthesis => if d < usize::MAX {
                d + 1
            } else {
                d
            },
            TokenKind::CloseParenthesis => if d > 0 {
                (d - 1) as nat
            } else {
                0
            },
            _ => d,
        }
    }
}

/// The tokens open a parenthesis, and leave it open up to the last one.
pub open spec fn paren_group(ks: Seq<TokenKind>) -> bool {
    &&& ks.len() >= 1
    &&& ks[0] is OpenParenthesis
    &&& forall|i: int| 1 <= i < ks.len() ==> #[trigger] paren_depth(ks.take(i)) > 0
}

/// The tokens read are a qualified name `q` and a dot (or nothing, when `q`
/// is empty), followed either by a token `t` that is not a name, or by
/// nothing, when the file ended there (`eof`; the end of the file is never
/// read).
pub open spec fn qname_cut_at(ks: Seq<TokenKind>, q: Seq<String>, t: TokenKind, eof: bool) -> bool {
    if q.len() == 0 {
        ||| ks == seq![t] && !(t is Identifier) && !(t is EndOfFile)
        ||| ks.len() == 0 && eof
    } else {
        ||| ks == qname_kinds(q) + seq![TokenKind::Dot, t] && !(t is Identifier) && !(t is EndOfFile)
        ||| ks == qname_kinds(q) + seq![TokenKind::Dot] && eof
    }
}

/// A qualified name is cut after a dot.
pub open spec fn qname_cut(ks: Seq<TokenKind>, eof: bool) -> bool {
    exists|q: Seq<String>, t: TokenKind| #[trigger] qname_cut_at(ks, q, t, eof)
}

/// A sequence of identifiers separated by dots, as in a qualified name.
impl<LEXER: Lexer> BaseScanner<LEXER> {
    /// The scanner's lexer is consistent; the tokens that it consumed are
    /// those that the lexer read before the one looked at, but for ends of
    /// file.
    pub open spec fn wf(&self) -> bool {
        &&& self.lex.wf()
        &&& self.start@.wf()
        &&& lexes(self.start@, self.lexed@, self.lex)
        &&& self.lexed@.len() >= 1
        &&& self.lexed@.last() == self.peeked
        &&& self.read@ == non_eof(self.lexed@.drop_last())
    }

    /// A measure of what remains to be read: strictly decreases each time a
    /// token other than the end of file is consumed.
    pub open spec fn measure(&self) -> nat {
        self.lex.remaining() + if self.peeked.kind is EndOfFile { 0nat } else { 1nat }
    }

    /// The last token taken from the lexer before the one looked at was the
    /// end of the file.
    pub open spec fn hit_eof(&self) -> bool {
        self.lexed@.len() >= 2 && self.lexed@[self.lexed@.len() - 2].kind is EndOfFile
    }

    /// The tokens consumed between states `a` and `b`.
    pub open spec fn read_after(a: Self, b: Self) -> Seq<Token> {
        b.read@.subrange(a.read@.len() as int, b.read@.len() as int)
    }

    /// State `b` consumed the tokens of `a`, and maybe more.
    pub open spec fn grew(a: Self, b: Self) -> bool {
        &&& prefix_of(a.read@, b.read@)
        &&& b.start == a.start
    }

    /// What happens to the consumed tokens when the next token is consumed.
    pub open spec fn read_one(a: Self, b: Self) -> bool {
        &&& b.start == a.start
        &&& if a.peeked.kind is EndOfFile {
            b.read@ == a.read@
        } else {
            b.read@ == a.read@.push(a.peeked)
        }
    }

    /// Builds a new scanner, and reads the first token.
    pub fn new(lex: LEXER) -> (r: Self)
        requires
            lex.wf(),
        ensures
            r.wf(),
            r.read@ == Seq::<Token>::empty(),
            r.start@ == lex,
            r.lexed@ == seq![r.peeked],
    {
        let ghost start = lex;
        let mut lex = lex;
        let ctx = lex.save_context();
        let kind = lex.scan_token(ctx.current);
        let p = ctx.build_token(kind);
        let ghost lx: Seq<Token> = Seq::empty().push(p);
        let r = Self { lex, peeked: p, read: Ghost(Seq::empty()), start: Ghost(start), lexed: Ghost(lx) };
        proof {
            assert(r.lexed@.drop_last() =~= Seq::<Token>::empty());
            assert(lexes(start, r.lexed@.drop_last(), start));
            assert(start.produces(r.lexed@.last().kind, r.lex));
        }
        r
    }

    /// Peek at the next token, without consuming it.
    pub fn peek(&self) -> (r: TokenKind)
        ensures
            r == self.peeked.kind,
    {
        self.peeked.kind.dup()
    }

    /// Peek at the next token and its line, without consuming it.
    pub fn peek_with_line(&self) -> (r: (u32, TokenKind))
        ensures
            r.0 == self.peeked.line,
            r.1 == self.peeked.kind,
    {
        (self.peeked.line, self.peeked.kind.dup())
    }

    /// Consume the next token in the stream.  Returns `None` at end of file.
    pub fn next_token(&mut self) -> (r: Option<Token>)
        requires
            old(self).wf(),
        ensures
            final(self).wf(),
            old(self).peeked.kind is EndOfFile ==> r is None,
            !(old(self).peeked.kind is EndOfFile) ==> r == Some(old(self).peeked),
            final(self).measure() <= old(self).measure(),
            !(old(self).peeked.kind is EndOfFile) ==> final(self).measure() < old(self).measure(),
            Self::read_one(*old(self), *final(self)),
            final(self).lexed@ == old(self).lexed@.push(final(self).peeked),
    {
        let ghost l0 = self.lex;
        let ghost lx0 = self.lexed@;
        let ghost r0 = self.read@;
        let ctx = self.lex.save_context();
        let kind = self.lex.scan_token(ctx.current);
        let mut p = ctx.build_token(kind);
        std::mem::swap(&mut self.peeked, &mut p);
        proof {
            self.lexed@ = self.lexed@.push(self.peeked);
            assert(self.lexed@.drop_last() =~= lx0);
            assert(l0.produces(self.lexed@.last().kind, self.lex));
            assert(lexes(self.start@, self.lexed@, self.lex));
        }
        if let TokenKind::EndOfFile = p.kind {
            None
        } else {
            proof {
                self.read@ = self.read@.push(p);
            }
            Some(p)
        }
    }

    /// Get the next token, failing with error on end of file.
    pub fn safe_next(&mut self) -> (r: Result<Token, Error>)
        requires
            old(self).wf(),
        ensures
            final(self).wf(),
            old(self).peeked.kind is EndOfFile ==> r == Err::<Token, Error>(Error::UnexpectedEOF),
            !(old(self).peeked.kind is EndOfFile) ==> r == Ok::<Token, Error>(old(self).peeked),
            final(self).measure() <= old(self).measure(),
            r is Ok ==> final(self).measure() < old(self).measure(),
            Self::read_one(*old(self), *final(self)),
            final(self).lexed@ == old(self).lexed@.push(final(self).peeked),
    {
        match self.next_token() {
            Some(t) => Ok(t),
            None => Err(Error::UnexpectedEOF),
        }
    }

    /// Consumes the next token from the lexer, and expect it to be a specific
    /// token.  Raises an error otherwise.
    pub fn expect(&mut self, token: TokenKind) -> (r: Result<(), Error>)
        requires
            old(self).wf(),
        ensures
            final(self).wf(),
            final(self).measure() <= old(self).measure(),
            r is Ok ==> final(self).measure() < old(self).measure(),
            old(self).peeked.kind is EndOfFile ==> r == Err::<(), Error>(Error::UnexpectedEOF),
            !(old(self).peeked.kind is EndOfFile) ==> (r is Ok <==> old(self).peeked.kind.same(
                &token,
            )),
            !(old(self).peeked.kind is EndOfFile) && !old(self).peeked.kind.same(&token) ==> (
            r matches Err(Error::WrongToken { expected, got }) && expected@ == token.description()
                && got@ == old(self).peeked.description()),
            final(self).lexed@ == old(self).lexed@.push(final(self).peeked),
            Self::read_one(*old(self), *final(self)),
            r is Ok && is_plain(token) ==> old(self).peeked.kind == token,
    {
        let n = self.safe_next()?;
        if n.kind.is_same(&token) {
            proof {
                if is_plain(token) {
                    lemma_same_plain(n.kind, token);
                }
            }
            Ok(())
        } else {
            let expected = token.describe();
            Err(Error::WrongToken { expected, got: n.describe() })
        }
    }

    /// Consumes the next token from the lexer, and expects it to be a string,
    /// which is returned.
    pub fn expect_str(&mut self) -> (r: Result<String, Error>)
        requires
            old(self).wf(),
        ensures
            final(self).wf(),
            final(self).measure() <= old(self).measure(),
            r is Ok ==> final(self).measure() < old(self).measure(),
            old(self).peeked.kind is EndOfFile ==> r == Err::<String, Error>(Error::UnexpectedEOF),
            old(self).peeked.kind is String ==> (r matches Ok(s) && old(self).peeked.kind
                == TokenKind::String(s)),
            !(old(self).peeked.kind is EndOfFile) && !(old(self).peeked.kind is String) ==> (
            r matches Err(Error::WrongToken { expected, got }) && expected@ == "string"@ && got@
                == old(self).peeked.description()),
            final(self).lexed@ == old(self).lexed@.push(final(self).peeked),
            Self::read_one(*old(self), *final(self)),
    {
        let n = self.safe_next()?;
        match n.kind {
            TokenKind::String(s) => Ok(s),
            _ => Err(Error::wrong_token("string", n.describe())),
        }
    }

    /// Consumes the next token from the lexer, and expects it to be an
    /// identifier which is returned.  The identifier is always lower-cased.
    pub fn expect_identifier(&mut self) -> (r: Result<String, Error>)
        requires
            old(self).wf(),
        ensures
            final(self).wf(),
            final(self).measure() <= old(self).measure(),
            r is Ok ==> final(self).measure() < old(self).measure(),
            old(self).peeked.kind is EndOfFile ==> r == Err::<String, Error>(Error::UnexpectedEOF),
            old(self).peeked.kind is Identifier ==> (r matches Ok(s) && old(self).peeked.kind
                == TokenKind::Identifier(s)),
            !(old(self).peeked.kind is EndOfFile) && !(old(self).peeked.kind is Identifier) ==> (
            r matches Err(Error::WrongToken { expected, got }) && expected@ == "identifier"@
                && got@ == old(self).peeked.description()),
            final(self).lexed@ == old(self).lexed@.push(final(self).peeked),
            Self::read_one(*old(self), *final(self)),
    {
        let n = self.safe_next()?;
        match n.kind {
            TokenKind::Identifier(s) => Ok(s),
            _ => Err(Error::wrong_token("identifier", n.describe())),
        }
    }

    /// Expects a qualified name ("parent1.parent2.name"), and returns its
    /// components.
    pub fn expect_qname(&mut self) -> (r: Result<QName, Error>)
        requires
            old(self).wf(),
        ensures
            final(self).wf(),
            final(self).measure() <= old(self).measure(),
            r is Ok ==> final(self).measure() < old(self).measure(),
            !(old(self).peeked.kind is Identifier) ==> r is Err,
            r is Ok ==> (r matches Ok(q) && q.0@.len() > 0 && old(self).peeked.kind
                == TokenKind::Identifier(q.0@[0])),
            Self::grew(*old(self), *final(self)),
            r matches Ok(q) ==> kinds(Self::read_after(*old(self), *final(self))) == qname_kinds(q.0@),
            // It stops at the first token after a name that is not a dot,
            // and fails where a dot is not followed by a name.
            r is Ok ==> !(final(self).peeked.kind is Dot),
            r is Err ==> qname_cut(kinds(Self::read_after(*old(self), *final(self))), final(self).hit_eof()),
    {
        let mut result: Vec<String> = Vec::new();
        let ghost t0 = self.peeked;
        let first = match self.expect_identifier() {
            Ok(f) => f,
            Err(e) => {
                proof {
                    let ks = kinds(Self::read_after(*old(self), *self));
                    if t0.kind is EndOfFile {
                        assert(ks =~= Seq::<TokenKind>::empty());
                        assert(self.lexed@[self.lexed@.len() - 2] == t0);
                        assert(qname_cut_at(ks, Seq::<String>::empty(), t0.kind, self.hit_eof()));
                    } else {
                        assert(Self::read_after(*old(self), *self) =~= seq![t0]);
                        assert(ks =~= seq![t0.kind]);
                        assert(qname_cut_at(ks, Seq::<String>::empty(), t0.kind, self.hit_eof()));
                    }
                }
                return Err(e);
            },
        };
        result.push(first);
        proof {
            assert(kinds(Self::read_after(*old(self), *self)) =~= qname_kinds(result@));
        }
        loop
            invariant
                self.wf(),
                self.measure() < old(self).measure(),
                result@.len() > 0,
                old(self).peeked.kind == TokenKind::Identifier(result@[0]),
                Self::grew(*old(self), *self),
                kinds(Self::read_after(*old(self), *self)) == qname_kinds(result@),
            ensures
                !(self.peeked.kind is Dot),
            decreases self.measure(),
        {
            if let TokenKind::Dot = self.peeked.kind {
            } else {
                break;
            }
            let ghost before = *self;
            let _ = self.next_token();  // consume the dot
            let ghost mid = *self;
            proof {
                assert(Self::read_after(*old(self), mid) =~= Self::read_after(*old(self), before).push(before.peeked));
                assert(kinds(Self::read_after(*old(self), mid)) =~= qname_kinds(result@).push(TokenKind::Dot));
            }
            match self.expect_identifier() {
                Ok(n) => {
                    let ghost prev = result@;
                    result.push(n);
                    proof {
                        assert(result@.drop_last() =~= prev);
                        assert(Self::read_after(*old(self), *self) =~= Self::read_after(*old(self), before).push(
                            before.peeked).push(mid.peeked));
                        assert(kinds(Self::read_after(*old(self), *self)) =~= kinds(Self::read_after(*old(self), before))
                            + seq![TokenKind::Dot, TokenKind::Identifier(n)]);
                    }
                },
                Err(e) => {
                    proof {
                        let ra = Self::read_after(*old(self), *self);
                        if mid.peeked.kind is EndOfFile {
                            assert(ra =~= Self::read_after(*old(self), mid));
                            assert(kinds(ra) =~= qname_kinds(result@) + seq![TokenKind::Dot]);
                            assert(self.lexed@[self.lexed@.len() - 2] == mid.peeked);
                            assert(qname_cut_at(kinds(ra), result@, TokenKind::Dot, self.hit_eof()));
                        } else {
                            assert(ra =~= Self::read_after(*old(self), mid).push(mid.peeked));
                            assert(kinds(ra) =~= qname_kinds(result@) + seq![TokenKind::Dot, mid.peeked.kind]);
                            assert(qname_cut_at(kinds(ra), result@, mid.peeked.kind, self.hit_eof()));
                        }
                    }
                    return Err(e);
                },
            }
        }
        Ok(QName(result))
    }

    /// Skips an optional parenthesized list of arguments, with nested
    /// parentheses.
    pub fn skip_opt_arg_list(&mut self) -> (r: Result<(), Error>)
        requires
            old(self).wf(),
        ensures
            final(self).wf(),
            final(self).measure() <= old(self).measure(),
            !(old(self).peeked.kind is OpenParenthesis) ==> r is Ok && final(self).measure()
                == old(self).measure() && final(self).read@ == old(self).read@,
            Self::grew(*old(self), *final(self)),
            // With a parenthesis, it reads up to the matching one, or fails
            // at the end of the file.
            old(self).peeked.kind is OpenParenthesis ==> {
                let ks = kinds(Self::read_after(*old(self), *final(self)));
                &&& paren_group(ks)
                &&& r is Ok <==> paren_depth(ks) == 0
                &&& r is Err ==> r == Err::<(), Error>(Error::UnexpectedEOF)
            },
    {
        if let TokenKind::OpenParenthesis = self.peeked.kind {
        } else {
            return Ok(());
        }
        let ghost t0 = self.peeked;
        let _ = self.next_token();
        let mut depth: usize = 1;
        proof {
            let ks = kinds(Self::read_after(*old(self), *self));
            assert(Self::read_after(*old(self), *self) =~= seq![t0]);
            assert(ks =~= seq![t0.kind]);
            assert(ks.take(0) =~= Seq::<TokenKind>::empty());
            assert(ks.take(1) =~= ks);
            assert(paren_depth(ks) == paren_depth(ks.drop_last()) + 1) by {
                assert(ks.drop_last() =~= Seq::<TokenKind>::empty());
            }
        }
        while depth > 0
            invariant
                self.wf(),
                old(self).peeked.kind is OpenParenthesis,
                self.measure() <= old(self).measure(),
                Self::grew(*old(self), *self),
                depth == paren_depth(kinds(Self::read_after(*old(self), *self))),
                kinds(Self::read_after(*old(self), *self)).len() >= 1,
                kinds(Self::read_after(*old(self), *self))[0] is OpenParenthesis,
                forall|i: int|
                    1 <= i < kinds(Self::read_after(*old(self), *self)).len() ==> #[trigger] paren_depth(
                        kinds(Self::read_after(*old(self), *self)).take(i),
                    ) > 0,
            decreases self.measure(),
        {
            let ghost before = *self;
            let ghost kb = kinds(Self::read_after(*old(self), before));
            let n = match self.safe_next() {
                Ok(n) => n,
                Err(e) => {
                    proof {
                        assert(Self::read_after(*old(self), *self) =~= Self::read_after(*old(self), before));
                    }
                    return Err(e);
                },
            };
            proof {
                assert(Self::read_after(*old(self), *self) =~= Self::read_after(*old(self), before).push(n));
                let ks = kinds(Self::read_after(*old(self), *self));
                assert(ks =~= kb.push(n.kind));
                assert(ks.drop_last() =~= kb);
                assert forall|i: int| 1 <= i < ks.len() implies #[trigger] paren_depth(ks.take(i)) > 0 by {
                    if i < kb.len() {
                        assert(ks.take(i) =~= kb.take(i));
                    } else {
                        assert(ks.take(i) =~= kb);
                    }
                }
            }
            match n.kind {
                TokenKind::OpenParenthesis => {
                    if depth < usize::MAX {
                        depth = depth + 1;
                    }
                },
                TokenKind::CloseParenthesis => {
                    depth = depth - 1;
                },
                _ => {},
            }
        }
        Ok(())
    }
}

} // verus!
