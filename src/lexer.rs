//! The scanner: turns source text into located tokens, one at a time.
use vstd::prelude::*;
use vstd::string::StringSliceAdditionalSpecFns;
use crate::common::{
    bytes_since_newline, is_alphabetic, is_alphanumeric, is_numeric, is_whitespace,
    lemma_position_after, newline_count, position_after, spec_is_alphabetic,
    spec_is_alphanumeric, spec_is_numeric, spec_is_whitespace, Loc, Position, DIGIT_0,
};
use crate::token::{keyword, keyword_of, punct, punct_of, KindView, Token, TokenKind};

verus! {

// ---------------------------------------------------------------------------
// Errors
// ---------------------------------------------------------------------------

#[derive(Debug, Clone, Copy, PartialEq, Eq, Structural)]
pub enum LexErrorKind {
    /// A byte that starts no lexeme.
    UnknownByte(u8),
    /// A run of digits whose value does not fit in an `i64`.
    NumberTooLarge,
}

/// A lexical error, with the location of the lexeme that caused it.
#[derive(Debug, Clone, Copy, PartialEq, Eq, Structural)]
pub struct LexError {
    pub kind: LexErrorKind,
    pub loc: Loc,
}

impl View for LexError {
    type V = (LexErrorKind, Position);

    open spec fn view(&self) -> (LexErrorKind, Position) {
        (self.kind, self.loc@)
    }
}

// ---------------------------------------------------------------------------
// The scanning rules, as functions on the byte sequence of the source
// ---------------------------------------------------------------------------

/// The first index at or after `p` that does not hold whitespace (`s.len()` if none).
pub open spec fn skip_ws(s: Seq<u8>, p: int) -> int
    decreases s.len() - p,
{
    if 0 <= p < s.len() && spec_is_whitespace(s[p]) {
        skip_ws(s, p + 1)
    } else {
        p
    }
}

/// The end of the run of decimal digits that starts at `p`.
pub open spec fn digits_end(s: Seq<u8>, p: int) -> int
    decreases s.len() - p,
{
    if 0 <= p < s.len() && spec_is_numeric(s[p]) {
        digits_end(s, p + 1)
    } else {
        p
    }
}

/// The end of the run of letters and digits that starts at `p`.
pub open spec fn word_end(s: Seq<u8>, p: int) -> int
    decreases s.len() - p,
{
    if 0 <= p < s.len() && spec_is_alphanumeric(s[p]) {
        word_end(s, p + 1)
    } else {
        p
    }
}

/// The base-10 value of a sequence of decimal digits.
pub open spec fn digits_value(w: Seq<u8>) -> int
    decreases w.len(),
{
    if w.len() == 0 {
        0
    } else {
        digits_value(w.drop_last()) * 10 + (w.last() as int - 48)
    }
}

/// The bytes of an ASCII identifier as characters.
pub open spec fn text_of(w: Seq<u8>) -> Seq<char> {
    w.map_values(|b: u8| b as char)
}

/// Where the lexeme that starts at the non-whitespace index `q` ends: after all
/// consecutive digits for a number, after all consecutive letters and digits for
/// a name, after one byte otherwise.
pub open spec fn lexeme_end(s: Seq<u8>, q: int) -> int {
    if spec_is_numeric(s[q]) {
        digits_end(s, q)
    } else if spec_is_alphabetic(s[q]) {
        word_end(s, q)
    } else {
        q + 1
    }
}

/// Why the lexeme `w` cannot become a token, if it cannot.
pub open spec fn lexeme_error(w: Seq<u8>) -> Option<LexErrorKind> {
    if spec_is_numeric(w[0]) {
        if digits_value(w) > i64::MAX {
            Some(LexErrorKind::NumberTooLarge)
        } else {
            None
        }
    } else if spec_is_alphabetic(w[0]) {
        None
    } else if punct_of(w[0]) is Some {
        None
    } else {
        Some(LexErrorKind::UnknownByte(w[0]))
    }
}

/// The kind of token that the lexeme `w` becomes.
pub open spec fn lexeme_kind(w: Seq<u8>) -> KindView {
    if spec_is_numeric(w[0]) {
        KindView::Number(digits_value(w))
    } else if spec_is_alphabetic(w[0]) {
        match keyword_of(text_of(w)) {
            Some(k) => k,
            None => KindView::Name(text_of(w)),
        }
    } else {
        punct_of(w[0])->0
    }
}

/// What one scanning step does from offset `p`.
pub ghost enum Step {
    /// Only whitespace is left.
    End,
    /// A token of this kind spans `start..end`.
    Produce(KindView, int, int),
    /// The lexeme at `start` is rejected.
    Fail(LexErrorKind, int),
}

/// One scanning step from offset `p`: skip whitespace, then classify the lexeme
/// found there.
pub open spec fn next_step(s: Seq<u8>, p: int) -> Step {
    let q = skip_ws(s, p);
    if q >= s.len() {
        Step::End
    } else {
        let w = s.subrange(q, lexeme_end(s, q));
        match lexeme_error(w) {
            Some(e) => Step::Fail(e, q),
            None => Step::Produce(lexeme_kind(w), q, lexeme_end(s, q)),
        }
    }
}

// ---------------------------------------------------------------------------
// Facts about the scanning rules
// ---------------------------------------------------------------------------

proof fn lemma_skip_ws(s: Seq<u8>, p: int)
    requires
        0 <= p <= s.len(),
    ensures
        p <= skip_ws(s, p) <= s.len(),
        skip_ws(s, p) < s.len() ==> !spec_is_whitespace(s[skip_ws(s, p)]),
        forall|i: int| p <= i < skip_ws(s, p) ==> spec_is_whitespace(#[trigger] s[i]),
    decreases s.len() - p,
{
    if p < s.len() && spec_is_whitespace(s[p]) {
        lemma_skip_ws(s, p + 1);
    }
}

proof fn lemma_digits_end(s: Seq<u8>, p: int)
    requires
        0 <= p <= s.len(),
    ensures
        p <= digits_end(s, p) <= s.len(),
        digits_end(s, p) < s.len() ==> !spec_is_numeric(s[digits_end(s, p)]),
        forall|i: int| p <= i < digits_end(s, p) ==> spec_is_numeric(#[trigger] s[i]),
    decreases s.len() - p,
{
    if p < s.len() && spec_is_numeric(s[p]) {
        lemma_digits_end(s, p + 1);
    }
}

proof fn lemma_word_end(s: Seq<u8>, p: int)
    requires
        0 <= p <= s.len(),
    ensures
        p <= word_end(s, p) <= s.len(),
        word_end(s, p) < s.len() ==> !spec_is_alphanumeric(s[word_end(s, p)]),
        forall|i: int| p <= i < word_end(s, p) ==> spec_is_alphanumeric(#[trigger] s[i]),
    decreases s.len() - p,
{
    if p < s.len() && spec_is_alphanumeric(s[p]) {
        lemma_word_end(s, p + 1);
    }
}

proof fn lemma_lexeme_end(s: Seq<u8>, q: int)
    requires
        0 <= q < s.len(),
    ensures
        q < lexeme_end(s, q) <= s.len(),
{
    lemma_digits_end(s, q);
    lemma_word_end(s, q);
}

proof fn lemma_digits_step(s: Seq<u8>, q: int, k: int)
    requires
        0 <= q <= k < s.len(),
    ensures
        digits_value(s.subrange(q, k + 1)) == digits_value(s.subrange(q, k)) * 10 + (s[k] as int
            - 48),
{
    assert(s.subrange(q, k + 1).drop_last() =~= s.subrange(q, k));
}

proof fn lemma_digits_grow(s: Seq<u8>, q: int, j: int, k: int)
    requires
        0 <= q <= j <= k <= s.len(),
        forall|i: int| q <= i < k ==> spec_is_numeric(#[trigger] s[i]),
    ensures
        0 <= digits_value(s.subrange(q, j)) <= digits_value(s.subrange(q, k)),
    decreases k - q,
{
    if k > q {
        lemma_digits_step(s, q, k - 1);
        if j < k {
            lemma_digits_grow(s, q, j, k - 1);
        } else {
            lemma_digits_grow(s, q, j - 1, k - 1);
        }
    } else {
        assert(s.subrange(q, k).len() == 0);
    }
}

} // verus!

verus! {

// ---------------------------------------------------------------------------
// The scanner
// ---------------------------------------------------------------------------

#[derive(Debug, PartialEq, Eq)]
pub struct Lexer<'input> {
    code: &'input str,
    loc: Loc,
}

impl<'input> Lexer<'input> {
    /// The bytes being scanned.
    pub closed spec fn source(&self) -> Seq<u8> {
        self.code.spec_bytes()
    }

    /// The current cursor.
    pub closed spec fn cursor(&self) -> Loc {
        self.loc
    }

    /// The cursor lies within the source and agrees with the bytes consumed so far.
    pub open spec fn wf(&self) -> bool {
        &&& self.source().len() < usize::MAX
        &&& self.cursor().abs <= self.source().len()
        &&& self.cursor()@ == position_after(self.source(), self.cursor().abs as int)
    }

    pub fn new(code: &'input str) -> (r: Self)
        requires
            code.spec_bytes().len() < usize::MAX,
        ensures
            r.wf(),
            r.source() == code.spec_bytes(),
            r.cursor().abs == 0,
    {
        Lexer { code, loc: Loc::new() }
    }

    fn byte_at(&self, index: usize) -> (r: Option<u8>)
        ensures
            index < self.source().len() ==> r == Some(self.source()[index as int]),
            index >= self.source().len() ==> r is None,
    {
        let bytes = self.code.as_bytes();
        if bytes.len() <= index {
            None
        } else {
            Some(bytes[index])
        }
    }

    /// Consumes the byte under the cursor.
    fn bump(&mut self, byte: u8)
        requires
            old(self).wf(),
            old(self).cursor().abs < old(self).source().len(),
            byte == old(self).source()[old(self).cursor().abs as int],
        ensures
            final(self).wf(),
            final(self).source() == old(self).source(),
            final(self).cursor().abs == old(self).cursor().abs + 1,
    {
        proof {
            crate::common::lemma_position_bounds(self.source(), self.loc.abs as int);
        }
        self.loc.advance(byte);
    }

    fn new_token(&self, kind: TokenKind) -> (r: Token)
        ensures
            r.val == kind,
            r.loc == self.cursor(),
    {
        Token::new(kind, self.loc)
    }

    fn skip_whitespace(&mut self)
        requires
            old(self).wf(),
        ensures
            final(self).wf(),
            final(self).source() == old(self).source(),
            final(self).cursor().abs == skip_ws(old(self).source(), old(self).cursor().abs as int),
    {
        let ghost s = self.source();
        let ghost p = self.loc.abs as int;
        loop
            invariant
                self.wf(),
                self.source() == s,
                skip_ws(s, self.loc.abs as int) == skip_ws(s, p),
            ensures
                self.wf(),
                self.source() == s,
                self.loc.abs == skip_ws(s, p),
            decreases s.len() - self.loc.abs,
        {
            match self.byte_at(self.loc.abs) {
                None => {
                    assert(skip_ws(s, self.loc.abs as int) == self.loc.abs);
                    break;
                },
                Some(byte) => {
                    if !is_whitespace(byte) {
                        assert(skip_ws(s, self.loc.abs as int) == self.loc.abs);
                        break;
                    }
                    self.bump(byte);
                },
            }
        }
    }

    fn tokenize_number(&mut self) -> (r: Result<Token, LexError>)
        requires
            old(self).wf(),
            old(self).cursor().abs < old(self).source().len(),
            spec_is_numeric(old(self).source()[old(self).cursor().abs as int]),
        ensures
            final(self).wf(),
            final(self).source() == old(self).source(),
            ({
                let s = old(self).source();
                let q = old(self).cursor().abs as int;
                let value = digits_value(s.subrange(q, digits_end(s, q)));
                &&& value <= i64::MAX ==> r is Ok && r->Ok_0@ == (KindView::Number(value),
                    position_after(s, q)) && final(self).cursor().abs == digits_end(s, q)
                &&& value > i64::MAX ==> r is Err && r->Err_0@ == (LexErrorKind::NumberTooLarge,
                    position_after(s, q)) && final(self).cursor() == old(self).cursor()
            }),
    {
        let ghost s = self.source();
        let ghost q = self.loc.abs as int;
        let ghost end = digits_end(s, q);
        let start_loc = self.loc;
        let mut number: i64 = 0;
        proof {
            lemma_digits_end(s, q);
            assert(s.subrange(q, q).len() == 0);
        }
        loop
            invariant
                self.wf(),
                self.source() == s,
                start_loc@ == position_after(s, q),
                start_loc.abs == q,
                start_loc == old(self).cursor(),
                s == old(self).source(),
                q == old(self).cursor().abs,
                q <= self.loc.abs <= end,
                end == digits_end(s, q),
                end <= s.len(),
                digits_end(s, self.loc.abs as int) == end,
                forall|i: int| q <= i < end ==> spec_is_numeric(#[trigger] s[i]),
                0 <= number,
                number as int == digits_value(s.subrange(q, self.loc.abs as int)),
            ensures
                self.wf(),
                self.source() == s,
                self.loc.abs == end,
                number as int == digits_value(s.subrange(q, end)),
            decreases s.len() - self.loc.abs,
        {
            match self.byte_at(self.loc.abs) {
                None => {
                    break;
                },
                Some(byte) => {
                    if !is_numeric(byte) {
                        break;
                    }
                    let digit = (byte - DIGIT_0) as i64;
                    let ghost k = self.loc.abs as int;
                    proof {
                        lemma_digits_step(s, q, k);
                        lemma_digits_end(s, k + 1);
                        assert(digits_end(s, k) == digits_end(s, k + 1));
                    }
                    if number > (i64::MAX - digit) / 10 {
                        proof {
                            assert(number * 10 + digit > i64::MAX) by (nonlinear_arith)
                                requires
                                    number > (i64::MAX - digit) / 10,
                                    0 <= digit <= 9,
                            ;
                            lemma_digits_grow(s, q, k + 1, end);
                        }
                        self.loc = start_loc;
                        return Err(LexError { kind: LexErrorKind::NumberTooLarge, loc: start_loc });
                    }
                    proof {
                        assert(number * 10 + digit <= i64::MAX) by (nonlinear_arith)
                            requires
                                number <= (i64::MAX - digit) / 10,
                                0 <= digit <= 9,
                                0 <= number,
                        ;
                    }
                    number = number * 10 + digit;
                    self.bump(byte);
                },
            }
        }
        Ok(Token::new(TokenKind::Number(number), start_loc))
    }

    fn tokenize_name(&mut self) -> (r: Token)
        requires
            old(self).wf(),
            old(self).cursor().abs < old(self).source().len(),
            spec_is_alphabetic(old(self).source()[old(self).cursor().abs as int]),
        ensures
            final(self).wf(),
            final(self).source() == old(self).source(),
            ({
                let s = old(self).source();
                let q = old(self).cursor().abs as int;
                let w = s.subrange(q, word_end(s, q));
                &&& r@ == (lexeme_kind(w), position_after(s, q))
                &&& final(self).cursor().abs == word_end(s, q)
            }),
    {
        let ghost s = self.source();
        let ghost q = self.loc.abs as int;
        let ghost end = word_end(s, q);
        let start_loc = self.loc;
        let mut name: String = String::new();
        proof {
            lemma_word_end(s, q);
            assert(text_of(s.subrange(q, q)) =~= name@);
        }
        loop
            invariant
                self.wf(),
                self.source() == s,
                start_loc@ == position_after(s, q),
                q <= self.loc.abs <= end,
                end == word_end(s, q),
                end <= s.len(),
                word_end(s, self.loc.abs as int) == end,
                name@ == text_of(s.subrange(q, self.loc.abs as int)),
            ensures
                self.wf(),
                self.source() == s,
                self.loc.abs == end,
                name@ == text_of(s.subrange(q, end)),
            decreases s.len() - self.loc.abs,
        {
            match self.byte_at(self.loc.abs) {
                None => {
                    break;
                },
                Some(byte) => {
                    if !is_alphanumeric(byte) {
                        break;
                    }
                    proof {
                        lemma_word_end(s, self.loc.abs + 1);
                        assert(word_end(s, self.loc.abs as int) == word_end(s, self.loc.abs + 1));
                        assert(text_of(s.subrange(q, self.loc.abs + 1)) =~= text_of(
                            s.subrange(q, self.loc.abs as int),
                        ).push(byte as char));
                    }
                    push_char(&mut name, byte as char);
                    self.bump(byte);
                },
            }
        }
        proof {
            assert(s.subrange(q, end)[0] == s[q]);
        }
        match keyword(&name) {
            Some(kind) => Token::new(kind, start_loc),
            None => Token::new(TokenKind::Name(name), start_loc),
        }
    }

    /// Skips whitespace, then scans one token.
    ///
    /// Returns `Ok(None)` at the end of the input. On an error the cursor rests at
    /// the start of the offending lexeme.
    pub fn tokenize(&mut self) -> (r: Result<Option<Token>, LexError>)
        requires
            old(self).wf(),
        ensures
            final(self).wf(),
            final(self).source() == old(self).source(),
            step_taken(
                old(self).source(),
                old(self).cursor().abs as int,
                r,
                final(self).cursor().abs as int,
            ),
    {
        let ghost s = self.source();
        let ghost p = self.loc.abs as int;
        proof {
            lemma_skip_ws(s, p);
        }
        self.skip_whitespace();
        let ghost q = self.loc.abs as int;
        match self.byte_at(self.loc.abs) {
            None => Ok(None),
            Some(byte) => {
                proof {
                    lemma_lexeme_end(s, q);
                    assert(s.subrange(q, lexeme_end(s, q))[0] == byte);
                }
                if is_numeric(byte) {
                    match self.tokenize_number() {
                        Ok(token) => Ok(Some(token)),
                        Err(e) => Err(e),
                    }
                } else if is_alphabetic(byte) {
                    Ok(Some(self.tokenize_name()))
                } else {
                    match punct(byte) {
                        Some(kind) => {
                            let token = self.new_token(kind);
                            self.bump(byte);
                            Ok(Some(token))
                        },
                        None => Err(LexError { kind: LexErrorKind::UnknownByte(byte), loc: self.loc }),
                    }
                }
            },
        }
    }

    pub fn into_iter(self) -> (r: IntoIter<'input>)
        requires
            self.wf(),
        ensures
            r.wf(),
            r.scanner() == self,
            r.failed() is None,
    {
        IntoIter { lexer: self, failure: None }
    }
}

/// Relies on `String::push`: appends the character to the end of the string.
#[verifier::external_body]
fn push_char(s: &mut String, c: char)
    ensures
        final(s)@ == old(s)@.push(c),
{
    s.push(c);
}

/// `r` is what a scanning step from offset `p` of `s` returns, and `after` the
/// offset where it leaves the cursor.
pub open spec fn step_taken(
    s: Seq<u8>,
    p: int,
    r: Result<Option<Token>, LexError>,
    after: int,
) -> bool {
    match next_step(s, p) {
        Step::End => r is Ok && r->Ok_0 is None && after == s.len(),
        Step::Produce(kind, start, end) => r is Ok && r->Ok_0 is Some && r->Ok_0->0@ == (
            kind,
            position_after(s, start),
        ) && after == end,
        Step::Fail(e, start) => r is Err && r->Err_0@ == (e, position_after(s, start)) && after
            == start,
    }
}

/// A forward-only cursor over the tokens of a source; it stops for good at the
/// first lexical error, which it keeps.
pub struct IntoIter<'input> {
    lexer: Lexer<'input>,
    failure: Option<LexError>,
}

impl<'input> IntoIter<'input> {
    pub closed spec fn scanner(&self) -> Lexer<'input> {
        self.lexer
    }

    pub closed spec fn failed(&self) -> Option<LexError> {
        self.failure
    }

    pub open spec fn wf(&self) -> bool {
        self.scanner().wf()
    }

    /// The next token; `None` at the end of the input and from the first error on.
    pub fn next(&mut self) -> (r: Option<Token>)
        requires
            old(self).wf(),
        ensures
            final(self).wf(),
            final(self).scanner().source() == old(self).scanner().source(),
            old(self).failed() is Some ==> r is None && *final(self) == *old(self),
            old(self).failed() is None ==> ({
                let s = old(self).scanner().source();
                let p = old(self).scanner().cursor().abs as int;
                match next_step(s, p) {
                    Step::End => r is None && final(self).failed() is None
                        && final(self).scanner().cursor().abs == s.len(),
                    Step::Produce(kind, start, end) => r is Some && r->0@ == (
                        kind,
                        position_after(s, start),
                    ) && final(self).failed() is None && final(self).scanner().cursor().abs == end,
                    Step::Fail(e, start) => r is None && final(self).failed() is Some
                        && final(self).failed()->0@ == (e, position_after(s, start)),
                }
            }),
    {
        if self.failure.is_some() {
            return None;
        }
        match self.lexer.tokenize() {
            Ok(token) => token,
            Err(e) => {
                self.failure = Some(e);
                None
            },
        }
    }

    /// The error that stopped the scan, if one did.
    pub fn failure(&self) -> (r: Option<LexError>)
        ensures
            r == self.failed(),
    {
        self.failure
    }
}

} // verus!

verus! {

// ---------------------------------------------------------------------------
// Whole-buffer scanning
// ---------------------------------------------------------------------------

/// The tokens scanned from offset `p` up to the end of `s` or up to the first
/// error, and that error if there is one.
pub open spec fn lex_from(s: Seq<u8>, p: int) -> (
    Seq<(KindView, Position)>,
    Option<(LexErrorKind, Position)>,
)
    decreases s.len() - p,
{
    match next_step(s, p) {
        Step::End => (seq![], None),
        Step::Fail(e, start) => (seq![], Some((e, position_after(s, start)))),
        Step::Produce(kind, start, end) => if p < end <= s.len() {
            let rest = lex_from(s, end);
            (seq![(kind, position_after(s, start))] + rest.0, rest.1)
        } else {
            (seq![], None)
        },
    }
}

/// The views of a sequence of tokens.
pub open spec fn token_views(tokens: Seq<Token>) -> Seq<(KindView, Position)> {
    tokens.map_values(|t: Token| t@)
}

/// `r` holds the tokens of `s` up to its end or its first error, and that error.
pub open spec fn lexed(s: Seq<u8>, r: (Vec<Token>, Option<LexError>)) -> bool {
    &&& token_views(r.0@) == lex_from(s, 0).0
    &&& r.1 is Some <==> lex_from(s, 0).1 is Some
    &&& r.1 is Some ==> r.1->0@ == lex_from(s, 0).1->0
}

proof fn lemma_step_advances(s: Seq<u8>, p: int)
    requires
        0 <= p <= s.len(),
    ensures
        next_step(s, p) matches Step::Produce(_, start, end) ==> p <= start < end <= s.len(),
        next_step(s, p) matches Step::Fail(_, start) ==> p <= start < s.len(),
{
    lemma_skip_ws(s, p);
    if skip_ws(s, p) < s.len() {
        lemma_lexeme_end(s, skip_ws(s, p));
    }
}

/// Scans a whole source: the tokens in order, up to the end of the input or up
/// to the first lexical error, which is returned beside them.
pub fn lex(code: &str) -> (r: (Vec<Token>, Option<LexError>))
    requires
        code.spec_bytes().len() < usize::MAX,
    ensures
        lexed(code.spec_bytes(), r),
{
    let ghost s = code.spec_bytes();
    let mut lexer = Lexer::new(code);
    let mut tokens: Vec<Token> = Vec::new();
    loop
        invariant
            lexer.wf(),
            lexer.source() == s,
            s == code.spec_bytes(),
            lex_from(s, 0).0 == token_views(tokens@) + lex_from(s, lexer.cursor().abs as int).0,
            lex_from(s, 0).1 == lex_from(s, lexer.cursor().abs as int).1,
        decreases s.len() - lexer.cursor().abs,
    {
        let ghost p = lexer.cursor().abs as int;
        proof {
            lemma_step_advances(s, p);
        }
        match lexer.tokenize() {
            Ok(None) => {
                proof {
                    assert(token_views(tokens@) + seq![] =~= token_views(tokens@));
                }
                return (tokens, None);
            },
            Ok(Some(token)) => {
                let ghost old_tokens = tokens@;
                tokens.push(token);
                proof {
                    assert(token_views(tokens@) =~= token_views(old_tokens) + seq![token@]);
                    let rest = lex_from(s, lexer.cursor().abs as int);
                    assert(token_views(old_tokens) + (seq![token@] + rest.0) =~= token_views(
                        tokens@,
                    ) + rest.0);
                }
            },
            Err(e) => {
                proof {
                    assert(token_views(tokens@) + seq![] =~= token_views(tokens@));
                }
                return (tokens, Some(e));
            },
        }
    }
}

// ---------------------------------------------------------------------------
// Laws of scanning
// ---------------------------------------------------------------------------

/// Where only whitespace is left, a scanning step finds the end of the input at once.
pub proof fn lemma_whitespace_only(s: Seq<u8>, p: int)
    requires
        0 <= p <= s.len(),
        forall|i: int| p <= i < s.len() ==> spec_is_whitespace(#[trigger] s[i]),
    ensures
        next_step(s, p) == Step::End,
        skip_ws(s, p) == s.len(),
    decreases s.len() - p,
{
    if p < s.len() {
        lemma_whitespace_only(s, p + 1);
    }
}

/// A maximal run of digits after whitespace becomes a number token whose value is
/// the run read in base 10, unless that value does not fit in an `i64`.
pub proof fn lemma_number_lexeme(s: Seq<u8>, p: int, start: int, end: int)
    requires
        0 <= p <= start < end <= s.len(),
        forall|i: int| p <= i < start ==> spec_is_whitespace(#[trigger] s[i]),
        forall|i: int| start <= i < end ==> spec_is_numeric(#[trigger] s[i]),
        end < s.len() ==> !spec_is_numeric(s[end]),
    ensures
        digits_value(s.subrange(start, end)) <= i64::MAX ==> next_step(s, p) == Step::Produce(
            KindView::Number(digits_value(s.subrange(start, end))),
            start,
            end,
        ),
        digits_value(s.subrange(start, end)) > i64::MAX ==> next_step(s, p) == Step::Fail(
            LexErrorKind::NumberTooLarge,
            start,
        ),
{
    lemma_skip_to(s, p, start);
    lemma_digits_run(s, start, end);
    assert(s.subrange(start, end)[0] == s[start]);
}

/// A maximal run of letters and digits that starts with a letter and spells a
/// reserved word becomes that keyword's token, never a name.
pub proof fn lemma_keyword_lexeme(s: Seq<u8>, p: int, start: int, end: int)
    requires
        0 <= p <= start < end <= s.len(),
        forall|i: int| p <= i < start ==> spec_is_whitespace(#[trigger] s[i]),
        spec_is_alphabetic(s[start]),
        forall|i: int| start <= i < end ==> spec_is_alphanumeric(#[trigger] s[i]),
        end < s.len() ==> !spec_is_alphanumeric(s[end]),
        keyword_of(text_of(s.subrange(start, end))) is Some,
    ensures
        next_step(s, p) == Step::Produce(
            keyword_of(text_of(s.subrange(start, end)))->0,
            start,
            end,
        ),
        next_step(s, p) != Step::Produce(KindView::Name(text_of(s.subrange(start, end))), start, end),
{
    lemma_skip_to(s, p, start);
    lemma_word_run(s, start, end);
    assert(s.subrange(start, end)[0] == s[start]);
}

/// A maximal run of letters and digits that starts with a letter and spells no
/// reserved word becomes a name token holding exactly that run.
pub proof fn lemma_name_lexeme(s: Seq<u8>, p: int, start: int, end: int)
    requires
        0 <= p <= start < end <= s.len(),
        forall|i: int| p <= i < start ==> spec_is_whitespace(#[trigger] s[i]),
        spec_is_alphabetic(s[start]),
        forall|i: int| start <= i < end ==> spec_is_alphanumeric(#[trigger] s[i]),
        end < s.len() ==> !spec_is_alphanumeric(s[end]),
        keyword_of(text_of(s.subrange(start, end))) is None,
    ensures
        next_step(s, p) == Step::Produce(KindView::Name(text_of(s.subrange(start, end))), start, end),
        text_of(s.subrange(start, end)).len() == end - start,
        forall|i: int| 0 <= i < end - start ==> #[trigger] text_of(s.subrange(start, end))[i] == s[start + i] as char,
{
    lemma_skip_to(s, p, start);
    lemma_word_run(s, start, end);
    assert(s.subrange(start, end)[0] == s[start]);
}

/// A well-formed scanner's cursor sits on line one plus the number of newlines
/// consumed, on column one plus the number of bytes consumed since the last
/// newline (or since the start), at the offset that counts all bytes consumed.
pub proof fn lemma_cursor_position(lexer: Lexer)
    requires
        lexer.wf(),
    ensures
        lexer.cursor().lin == 1 + newline_count(lexer.source().take(lexer.cursor().abs as int)),
        lexer.cursor().col == 1 + bytes_since_newline(
            lexer.source().take(lexer.cursor().abs as int),
        ),
{
    lemma_position_after(lexer.source(), lexer.cursor().abs as int);
}

/// Scanning is deterministic: two complete scans of one source give the same
/// tokens, at the same locations, and stop at the same error.
pub proof fn lemma_rescan_identical(
    s: Seq<u8>,
    first: (Vec<Token>, Option<LexError>),
    second: (Vec<Token>, Option<LexError>),
)
    requires
        lexed(s, first),
        lexed(s, second),
    ensures
        token_views(first.0@) == token_views(second.0@),
        first.1 == second.1,
{
}

proof fn lemma_skip_to(s: Seq<u8>, p: int, start: int)
    requires
        0 <= p <= start < s.len(),
        forall|i: int| p <= i < start ==> spec_is_whitespace(#[trigger] s[i]),
        !spec_is_whitespace(s[start]),
    ensures
        skip_ws(s, p) == start,
    decreases start - p,
{
    if p < start {
        lemma_skip_to(s, p + 1, start);
    }
}

proof fn lemma_digits_run(s: Seq<u8>, start: int, end: int)
    requires
        0 <= start <= end <= s.len(),
        forall|i: int| start <= i < end ==> spec_is_numeric(#[trigger] s[i]),
        end < s.len() ==> !spec_is_numeric(s[end]),
    ensures
        digits_end(s, start) == end,
    decreases end - start,
{
    if start < end {
        lemma_digits_run(s, start + 1, end);
    }
}

proof fn lemma_word_run(s: Seq<u8>, start: int, end: int)
    requires
        0 <= start <= end <= s.len(),
        forall|i: int| start <= i < end ==> spec_is_alphanumeric(#[trigger] s[i]),
        end < s.len() ==> !spec_is_alphanumeric(s[end]),
    ensures
        word_end(s, start) == end,
    decreases end - start,
{
    if start < end {
        lemma_word_run(s, start + 1, end);
    }
}

} // verus!
