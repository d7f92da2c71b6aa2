//! A lexer for Ada and for project files (which use an Ada-like syntax).
use crate::base_lexer::{
    char_at, eol_from, lemma_non_eof_prefix, lexes, lexable, lines_upto, non_eof, quote_end, word_end, BaseLexer, BaseScanner,
    Context, Lexer,
};
use crate::errors::Error;
use crate::files::File;
use crate::strings::{
    ascii_lower_seq, ascii_lowercase, spec_is_wordchar, str_eq, to_lowercase, unicode_lowercase,
};
use crate::tokens::{Token, TokenKind};
use vstd::prelude::*;

verus! {

/// Which optional keywords the lexer recognizes.
#[derive(Copy, Clone, Debug)]
pub struct AdaLexerOptions {
    /// "aggregate" is a keyword (in project files)
    pub kw_aggregate: bool,
    /// "body" is a keyword (in Ada sources)
    pub kw_body: bool,
}

/// The keyword spelled by the (lower-cased) word, if any.
pub open spec fn ada_keyword(s: Seq<char>, options: AdaLexerOptions) -> Option<TokenKind> {
    if s == "abstract"@ { Some(TokenKind::Abstract) }
    else if s == "aggregate"@ && options.kw_aggregate { Some(TokenKind::Aggregate) }
    else if s == "body"@ && options.kw_body { Some(TokenKind::Body) }
    else if s == "case"@ { Some(TokenKind::Case) }
    else if s == "end"@ { Some(TokenKind::End) }
    else if s == "extends"@ { Some(TokenKind::Extends) }
    else if s == "for"@ { Some(TokenKind::For) }
    else if s == "function"@ { Some(TokenKind::Function) }
    else if s == "generic"@ { Some(TokenKind::Generic) }
    else if s == "is"@ { Some(TokenKind::Is) }
    else if s == "library"@ { Some(TokenKind::Library) }
    else if s == "limited"@ { Some(TokenKind::Limited) }
    else if s == "others"@ { Some(TokenKind::Others) }
    else if s == "package"@ { Some(TokenKind::Package) }
    else if s == "pragma"@ { Some(TokenKind::Pragma) }
    else if s == "private"@ { Some(TokenKind::Private) }
    else if s == "procedure"@ { Some(TokenKind::Procedure) }
    else if s == "project"@ { Some(TokenKind::Project) }
    else if s == "renames"@ { Some(TokenKind::Renames) }
    else if s == "separate"@ { Some(TokenKind::Separate) }
    else if s == "type"@ { Some(TokenKind::Type) }
    else if s == "null"@ { Some(TokenKind::Null) }
    else if s == "use"@ { Some(TokenKind::Use) }
    else if s == "with"@ { Some(TokenKind::With) }
    else if s == "when"@ { Some(TokenKind::When) }
    else { None }
}

/// The token for a word: a keyword, or a lower-cased identifier.
pub open spec fn ada_word_token(word: Seq<char>, options: AdaLexerOptions, r: TokenKind) -> bool {
    let lower = ascii_lower_seq(word);
    match ada_keyword(lower, options) {
        Some(k) => r == k,
        None => r matches TokenKind::Identifier(id) && id@ == unicode_lowercase(lower),
    }
}

/// The token for a single-character delimiter, if `c` is one.
pub open spec fn ada_delimiter(c: char) -> Option<TokenKind> {
    if c == '&' { Some(TokenKind::Ampersand) }
    else if c == ')' { Some(TokenKind::CloseParenthesis) }
    else if c == ',' { Some(TokenKind::Comma) }
    else if c == '.' { Some(TokenKind::Dot) }
    else if c == '-' { Some(TokenKind::Minus) }
    else if c == '(' { Some(TokenKind::OpenParenthesis) }
    else if c == '|' { Some(TokenKind::Pipe) }
    else if c == ';' { Some(TokenKind::Semicolon) }
    else { None }
}

/// Where the next token starts, from position `o`: white space, comments
/// (from `--` to the end of the line) and preprocessor lines (from `#`) are
/// skipped.
pub open spec fn ada_skip(s: Seq<char>, o: int) -> int
    decreases s.len() - o,
{
    if o < 0 || o >= s.len() {
        o
    } else {
        let c = s[o];
        if c == '\n' || c == ' ' || c == '\t' || c == '\r' {
            ada_skip(s, o + 1)
        } else if c == '#' || (c == '-' && o + 1 < s.len() && s[o + 1] == '-') {
            let e = eol_from(s, o + 1);
            if e < o + 1 || e >= s.len() {
                e
            } else {
                ada_skip(s, e + 1)
            }
        } else {
            o
        }
    }
}

/// Where the token that starts at position `p` ends.
pub open spec fn ada_token_end(s: Seq<char>, p: int) -> int {
    let c = char_at(s, p);
    if c == '\0' {
        p
    } else if ada_delimiter(c) is Some {
        p + 1
    } else if c == '"' {
        let stop = quote_end(s, p + 1);
        if stop < s.len() && s[stop] == '"' {
            stop + 1
        } else {
            stop
        }
    } else if c == '\'' {
        if p + 2 < s.len() && s[p + 2] == '\'' {
            p + 2
        } else {
            p + 1
        }
    } else if c == ':' {
        if char_at(s, p + 1) == '=' {
            p + 2
        } else {
            p + 1
        }
    } else if c == '=' {
        if char_at(s, p + 1) == '>' {
            p + 2
        } else {
            p + 1
        }
    } else if spec_is_wordchar(c) {
        word_end(s, p + 1)
    } else {
        p + 1
    }
}

/// Whether `t` is the token that starts at position `p`.
pub open spec fn ada_token_at(s: Seq<char>, p: int, options: AdaLexerOptions, t: TokenKind) -> bool {
    let c = char_at(s, p);
    if c == '\0' {
        t is EndOfFile
    } else if ada_delimiter(c) is Some {
        t == ada_delimiter(c)->0
    } else if c == '"' {
        let stop = quote_end(s, p + 1);
        if stop < s.len() && s[stop] == '"' {
            t matches TokenKind::String(v) && v@ == s.subrange(p + 1, stop)
        } else {
            t is EndOfFile
        }
    } else if c == '\'' {
        if p + 2 < s.len() && s[p + 2] == '\'' {
            t == TokenKind::Character(s[p + 1])
        } else {
            t is Tick
        }
    } else if c == ':' {
        if char_at(s, p + 1) == '=' {
            t is Assign
        } else {
            t is Colon
        }
    } else if c == '=' {
        if char_at(s, p + 1) == '>' {
            t is Arrow
        } else {
            t is Equal
        }
    } else if spec_is_wordchar(c) {
        ada_word_token(s.subrange(p, word_end(s, p + 1)), options, t)
    } else {
        t == TokenKind::InvalidChar(c)
    }
}

/// The position after the first `n` tokens read from position `o`.
pub open spec fn ada_offset_after(s: Seq<char>, o: int, n: nat) -> int
    decreases n,
{
    if n == 0 {
        o
    } else {
        ada_token_end(s, ada_skip(s, ada_offset_after(s, o, (n - 1) as nat)))
    }
}

/// Whether `toks` are the first tokens read from position `o`, each at the
/// line where the lexer was before reading it.
pub open spec fn ada_lexes(s: Seq<char>, options: AdaLexerOptions, o: int, toks: Seq<Token>) -> bool {
    forall|i: int|
        0 <= i < toks.len() ==> {
            let oi = ada_offset_after(s, o, i as nat);
            &&& ada_token_at(s, ada_skip(s, oi), options, #[trigger] toks[i].kind)
            &&& toks[i].line == 1 + lines_upto(s, oi)
        }
}

/// Whether `read`, then an end of file, are the tokens read from the
/// position of `start`.
pub open spec fn ada_read_all(start: AdaLexer, read: Seq<Token>) -> bool {
    exists|e: Token|
        e.kind is EndOfFile && #[trigger] ada_lexes(
            start.base.input@,
            start.options,
            start.base.context.offset as int,
            read.push(e),
        )
}

/// A lexer for Ada and project files.
pub struct AdaLexer {
    pub base: BaseLexer,
    pub options: AdaLexerOptions,
}

impl AdaLexer {
    /// Builds a new lexer for the file.
    pub fn new(file: &File, options: AdaLexerOptions) -> (r: Self)
        requires
            lexable(file.buffer@),
        ensures
            r.base.wf(),
            r.base.input@ == file.buffer@,
            r.base.path == file.path,
            r.base.context.offset == 0,
            r.options == options,
    {
        Self { base: BaseLexer::new(file), options }
    }

    /// Skips white spaces, comments and preprocessor lines.  Returns the
    /// first character of the next token.
    fn skip_non_tokens(&mut self, current: char) -> (r: char)
        requires
            old(self).base.wf(),
            current == old(self).base.context.current,
        ensures
            final(self).base.wf(),
            final(self).base.input == old(self).base.input,
            final(self).base.path == old(self).base.path,
            final(self).options == old(self).options,
            final(self).base.context.offset >= old(self).base.context.offset,
            r == final(self).base.context.current,
            final(self).base.context.offset == ada_skip(old(self).base.input@, old(self).base.context.offset as int),
    {
        let ghost s = self.base.input@;
        let mut c = current;
        loop
            invariant
                self.base.wf(),
                self.base.input == old(self).base.input,
                self.base.input@ == s,
                self.base.path == old(self).base.path,
                self.options == old(self).options,
                self.base.context.offset >= old(self).base.context.offset,
                c == self.base.context.current,
                ada_skip(s, self.base.context.offset as int) == ada_skip(s, old(self).base.context.offset as int),
            ensures
                self.base.wf(),
                self.base.input == old(self).base.input,
                self.base.path == old(self).base.path,
                self.options == old(self).options,
                self.base.context.offset >= old(self).base.context.offset,
                c == self.base.context.current,
                self.base.context.offset == ada_skip(s, old(self).base.context.offset as int),
            decreases self.base.input@.len() - self.base.context.offset,
        {
            let ghost o = self.base.context.offset as int;
            if c == '\n' || c == ' ' || c == '\t' || c == '\r' {
            } else if c == '#' {
                // preprocessor
                self.base.skip_to_eol();
            } else if c == '-' {
                if let Some('-') = self.base.peek_char() {
                    self.base.skip_to_eol();
                } else {
                    break;
                }
            } else {
                break;
            }
            if self.base.context.offset >= self.base.input.len() {
                // A comment at the very end of the input, without a newline
                return self.base.context.current;
            }
            c = self.base.scan_char();
        }
        c
    }

    /// Scans an identifier or a keyword.  Identifiers are lower-cased.
    fn scan_identifier_or_keyword(&mut self) -> (r: TokenKind)
        requires
            old(self).base.wf(),
            old(self).base.context.offset < old(self).base.input@.len(),
        ensures
            final(self).base.wf(),
            final(self).base.input == old(self).base.input,
            final(self).base.path == old(self).base.path,
            final(self).options == old(self).options,
            final(self).base.context.offset > old(self).base.context.offset,
            final(self).base.context.offset == word_end(old(self).base.input@, old(self).base.context.offset + 1),
            ({
                let s = old(self).base.input@;
                let start = old(self).base.context.offset as int;
                ada_word_token(
                    s.subrange(start, final(self).base.context.offset as int),
                    old(self).options,
                    r,
                )
            }),
    {
        let ghost s = self.base.input@;
        let ghost start = self.base.context.offset as int;
        proof {
            crate::base_lexer::lemma_word_end(s, start + 1);
        }
        let word = self.base.scan_identifier();
        let n = ascii_lowercase(word.as_str());
        let o = self.options;
        if str_eq(n.as_str(), "abstract") { TokenKind::Abstract }
        else if str_eq(n.as_str(), "aggregate") && o.kw_aggregate { TokenKind::Aggregate }
        else if str_eq(n.as_str(), "body") && o.kw_body { TokenKind::Body }
        else if str_eq(n.as_str(), "case") { TokenKind::Case }
        else if str_eq(n.as_str(), "end") { TokenKind::End }
        else if str_eq(n.as_str(), "extends") { TokenKind::Extends }
        else if str_eq(n.as_str(), "for") { TokenKind::For }
        else if str_eq(n.as_str(), "function") { TokenKind::Function }
        else if str_eq(n.as_str(), "generic") { TokenKind::Generic }
        else if str_eq(n.as_str(), "is") { TokenKind::Is }
        else if str_eq(n.as_str(), "library") { TokenKind::Library }
        else if str_eq(n.as_str(), "limited") { TokenKind::Limited }
        else if str_eq(n.as_str(), "others") { TokenKind::Others }
        else if str_eq(n.as_str(), "package") { TokenKind::Package }
        else if str_eq(n.as_str(), "pragma") { TokenKind::Pragma }
        else if str_eq(n.as_str(), "private") { TokenKind::Private }
        else if str_eq(n.as_str(), "procedure") { TokenKind::Procedure }
        else if str_eq(n.as_str(), "project") { TokenKind::Project }
        else if str_eq(n.as_str(), "renames") { TokenKind::Renames }
        else if str_eq(n.as_str(), "separate") { TokenKind::Separate }
        else if str_eq(n.as_str(), "type") { TokenKind::Type }
        else if str_eq(n.as_str(), "null") { TokenKind::Null }
        else if str_eq(n.as_str(), "use") { TokenKind::Use }
        else if str_eq(n.as_str(), "with") { TokenKind::With }
        else if str_eq(n.as_str(), "when") { TokenKind::When }
        else {
            // We can't just do ASCII lower-case, but instead need to do
            // full conversion to lower case here.
            TokenKind::Identifier(to_lowercase(n.as_str()))
        }
    }
}

impl Lexer for AdaLexer {
    open spec fn wf(&self) -> bool {
        self.base.wf()
    }

    open spec fn remaining(&self) -> nat {
        self.base.remaining()
    }

    open spec fn ctx(&self) -> Context {
        self.base.context
    }

    open spec fn produces(self, kind: TokenKind, next: Self) -> bool {
        let s = self.base.input@;
        let p = ada_skip(s, self.base.context.offset as int);
        &&& next.base.input == self.base.input
        &&& next.base.path == self.base.path
        &&& next.options == self.options
        &&& next.base.wf()
        &&& ada_token_at(s, p, self.options, kind)
        &&& next.base.context.offset == ada_token_end(s, p)
    }

    fn error_with_location(&self, error: Error) -> (r: Error) {
        self.base.error_with_location(error)
    }

    fn save_context(&self) -> (r: Context) {
        self.base.save_context()
    }

    fn scan_token(&mut self, current: char) -> (r: TokenKind)
        ensures
            final(self).base.input == old(self).base.input,
            final(self).base.path == old(self).base.path,
            final(self).options == old(self).options,
            ({
                let s = old(self).base.input@;
                let p = ada_skip(s, old(self).base.context.offset as int);
                &&& ada_token_at(s, p, old(self).options, r)
                &&& final(self).base.context.offset == ada_token_end(s, p)
            }),
    {
        let c = self.skip_non_tokens(current);
        let kind = if c == '\0' {
            return TokenKind::EndOfFile;
        } else if c == '&' {
            TokenKind::Ampersand
        } else if c == ')' {
            TokenKind::CloseParenthesis
        } else if c == ',' {
            TokenKind::Comma
        } else if c == '.' {
            TokenKind::Dot
        } else if c == '-' {
            // comments were handled in skip_non_tokens
            TokenKind::Minus
        } else if c == '(' {
            TokenKind::OpenParenthesis
        } else if c == '|' {
            TokenKind::Pipe
        } else if c == ';' {
            TokenKind::Semicolon
        } else if c == '"' {
            return self.base.scan_quote();
        } else if c == '\'' {
            //  Either a character or a simple tick
            let ctx = self.base.save_context();
            let c2 = self.base.scan_char();
            if self.base.context.offset < self.base.input.len() {
                if let Some('\'') = self.base.peek_char() {
                    TokenKind::Character(c2)
                } else {
                    self.base.restore_context(ctx);
                    TokenKind::Tick
                }
            } else {
                // A tick at the very end of the input
                self.base.restore_context(ctx);
                TokenKind::Tick
            }
        } else if c == ':' {
            if self.base.scan_char() == '=' {
                self.base.scan_char();
                return TokenKind::Assign;
            } else {
                return TokenKind::Colon;
            }
        } else if c == '=' {
            if self.base.scan_char() == '>' {
                self.base.scan_char();
                return TokenKind::Arrow;
            } else {
                return TokenKind::Equal;
            }
        } else if self.base.is_wordchar() {
            return self.scan_identifier_or_keyword();
        } else {
            TokenKind::InvalidChar(c)
        };
        self.base.scan_char();
        kind
    }
}

/// What an Ada lexer reads, step by step, are the tokens of its input from
/// its position.
pub proof fn lemma_lexes_ada(a: AdaLexer, toks: Seq<Token>, b: AdaLexer)
    requires
        a.base.wf(),
        lexes(a, toks, b),
    ensures
        ada_lexes(a.base.input@, a.options, a.base.context.offset as int, toks),
        b.base.context.offset == ada_offset_after(a.base.input@, a.base.context.offset as int, toks.len()),
        b.base.input == a.base.input,
        b.options == a.options,
        b.base.wf(),
    decreases toks.len(),
{
    let s = a.base.input@;
    let o = a.base.context.offset as int;
    if toks.len() > 0 {
        let mid = choose|mid: AdaLexer|
            #[trigger] mid.produces(toks.last().kind, b) && toks.last().line == mid.ctx().line && lexes(
                a,
                toks.drop_last(),
                mid,
            );
        lemma_lexes_ada(a, toks.drop_last(), mid);
        let n = toks.len() - 1;
        assert forall|i: int| 0 <= i < toks.len() implies {
            let oi = ada_offset_after(s, o, i as nat);
            &&& ada_token_at(s, ada_skip(s, oi), a.options, #[trigger] toks[i].kind)
            &&& toks[i].line == 1 + lines_upto(s, oi)
        } by {
            if i < n {
                assert(toks[i] == toks.drop_last()[i]);
            }
        }
    }
}

/// After an end of file, an Ada lexer only reads ends of file.
pub proof fn lemma_ada_end_stays(s: Seq<char>, options: AdaLexerOptions, o: int, toks: Seq<Token>, i: int, j: int)
    requires
        ada_lexes(s, options, o, toks),
        0 <= i <= j < toks.len(),
        toks[i].kind is EndOfFile,
    ensures
        toks[j].kind is EndOfFile,
        char_at(s, ada_offset_after(s, o, (i + 1) as nat)) == '\0',
    decreases j - i,
{
    let oi = ada_offset_after(s, o, i as nat);
    let p = ada_skip(s, oi);
    let e = ada_offset_after(s, o, (i + 1) as nat);
    assert(e == ada_token_end(s, p));
    assert(ada_token_at(s, p, options, toks[i].kind));
    if char_at(s, p) == '"' {
        crate::base_lexer::lemma_quote_end(s, p + 1);
    }
    assert(char_at(s, e) == '\0');
    if j > i {
        assert(ada_skip(s, e) == e);
        assert(ada_token_at(s, ada_skip(s, e), options, toks[i + 1].kind));
        lemma_ada_end_stays(s, options, o, toks, i + 1, j);
    }
}

/// The position of the first end of file, or the length when there is none.
pub open spec fn first_eof(t: Seq<Token>) -> int
    decreases t.len(),
{
    if t.len() == 0 || t[0].kind is EndOfFile {
        0
    } else {
        1 + first_eof(t.subrange(1, t.len() as int))
    }
}

proof fn lemma_first_eof(t: Seq<Token>)
    ensures
        0 <= first_eof(t) <= t.len(),
        forall|i: int| 0 <= i < first_eof(t) ==> !(#[trigger] t[i].kind is EndOfFile),
        first_eof(t) < t.len() ==> t[first_eof(t)].kind is EndOfFile,
    decreases t.len(),
{
    if t.len() > 0 && !(t[0].kind is EndOfFile) {
        let r = t.subrange(1, t.len() as int);
        lemma_first_eof(r);
        assert forall|i: int| 0 <= i < first_eof(t) implies !(#[trigger] t[i].kind is EndOfFile) by {
            if i > 0 {
                assert(t[i] == r[i - 1]);
            }
        }
        if first_eof(t) < t.len() {
            assert(t[first_eof(t)] == r[first_eof(r)]);
        }
    }
}

/// A scanner over an Ada lexer that took an end of file looks at one too.
pub proof fn lemma_scanner_eof_stays(b: BaseScanner<AdaLexer>)
    requires
        b.wf(),
        b.hit_eof(),
    ensures
        b.peeked.kind is EndOfFile,
{
    let a = b.start@;
    let t = b.lexed@;
    lemma_lexes_ada(a, t, b.lex);
    lemma_ada_end_stays(a.base.input@, a.options, a.base.context.offset as int, t, t.len() - 2, t.len() - 1);
}

/// A scanner over an Ada lexer that reached the end of file consumed the
/// tokens read from the lexer's first position, up to the end of file.
pub proof fn lemma_scanner_read_all(b: BaseScanner<AdaLexer>)
    requires
        b.wf(),
        b.peeked.kind is EndOfFile,
    ensures
        ada_read_all(b.start@, b.read@),
{
    let a = b.start@;
    let s = a.base.input@;
    let o = a.base.context.offset as int;
    let t = b.lexed@;
    lemma_lexes_ada(a, t, b.lex);
    lemma_first_eof(t);
    let f = first_eof(t);
    assert(f < t.len()) by {
        if f == t.len() {
            assert(t[t.len() - 1].kind is EndOfFile);
        }
    }
    assert forall|j: int| f <= j < t.len() implies #[trigger] t[j].kind is EndOfFile by {
        lemma_ada_end_stays(s, a.options, o, t, f, j);
    }
    let d = t.drop_last();
    assert forall|i: int| 0 <= i < f implies !(#[trigger] d[i].kind is EndOfFile) by {
        assert(d[i] == t[i]);
    }
    assert forall|i: int| f <= i < d.len() implies #[trigger] d[i].kind is EndOfFile by {
        assert(d[i] == t[i]);
    }
    lemma_non_eof_prefix(d, f);
    let e = t[f];
    let u = b.read@.push(e);
    assert(u =~= t.subrange(0, f + 1));
    assert forall|i: int| 0 <= i < u.len() implies {
        let oi = ada_offset_after(s, o, i as nat);
        &&& ada_token_at(s, ada_skip(s, oi), a.options, #[trigger] u[i].kind)
        &&& u[i].line == 1 + lines_upto(s, oi)
    } by {
        assert(u[i] == t[i]);
    }
    assert(ada_lexes(s, a.options, o, u));
}

/// The tokens that a scanner over an Ada lexer consumed are the first
/// tokens read from the lexer's first position.
pub proof fn lemma_scanner_read_prefix(b: BaseScanner<AdaLexer>)
    requires
        b.wf(),
    ensures
        ada_lexes(b.start@.base.input@, b.start@.options, b.start@.base.context.offset as int, b.read@),
{
    let a = b.start@;
    let s = a.base.input@;
    let o = a.base.context.offset as int;
    let t = b.lexed@;
    lemma_lexes_ada(a, t, b.lex);
    lemma_first_eof(t);
    let f = first_eof(t);
    let d = t.drop_last();
    let g = if f < d.len() { f } else { d.len() as int };
    assert forall|j: int| g <= j < d.len() implies #[trigger] d[j].kind is EndOfFile by {
        assert(d[j] == t[j]);
        lemma_ada_end_stays(s, a.options, o, t, f, j);
    }
    assert forall|i: int| 0 <= i < g implies !(#[trigger] d[i].kind is EndOfFile) by {
        assert(d[i] == t[i]);
    }
    lemma_non_eof_prefix(d, g);
    let u = b.read@;
    assert forall|i: int| 0 <= i < u.len() implies {
        let oi = ada_offset_after(s, o, i as nat);
        &&& ada_token_at(s, ada_skip(s, oi), a.options, #[trigger] u[i].kind)
        &&& u[i].line == 1 + lines_upto(s, oi)
    } by {
        assert(u[i] == t[i]);
    }
}

} // verus!
