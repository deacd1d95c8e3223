//! Tokenizer: classifies the next lexical unit of a byte buffer.
use vstd::prelude::*;
use vstd::string::StringSliceAdditionalSpecFns;

verus! {

// ASCII codes of the bytes the tokenizer tells apart.
pub const DIGIT_ZERO: u8 = 48;
pub const DIGIT_NINE: u8 = 57;
pub const LOWER_A: u8 = 97;
pub const LOWER_Z: u8 = 122;
pub const UPPER_A: u8 = 65;
pub const UPPER_Z: u8 = 90;
pub const UNDERSCORE: u8 = 95;
pub const SPACE: u8 = 32;
pub const TAB: u8 = 9;
pub const LINE_FEED: u8 = 10;
pub const CARRIAGE_RETURN: u8 = 13;
pub const DOT: u8 = 46;
pub const EQUAL_SIGN: u8 = 61;
pub const OPEN_PAREN: u8 = 40;
pub const CLOSE_PAREN: u8 = 41;
pub const COMMA: u8 = 44;
pub const PLUS_SIGN: u8 = 43;
pub const MINUS_SIGN: u8 = 45;

/// The closed set of lexical categories.
#[derive(Debug, Clone, Copy, PartialEq, Eq, Structural)]
pub enum TokenType {
    Name,
    Number,
    Equal,
    LeftParenthesis,
    RightParenthesis,
    Comma,
    Plus,
    Minus,
    Whitespace,
    Unknown,
    EndOfFile,
}

/// A token: its category and the exact bytes of the source it spans.
#[derive(Clone, Copy)]
pub struct Token<'source> {
    pub token_type: TokenType,
    pub contents: &'source [u8],
}

pub open spec fn is_digit(b: u8) -> bool {
    DIGIT_ZERO <= b <= DIGIT_NINE
}

pub open spec fn is_name_start(b: u8) -> bool {
    (LOWER_A <= b <= LOWER_Z) || (UPPER_A <= b <= UPPER_Z) || b == UNDERSCORE
}

pub open spec fn is_name_char(b: u8) -> bool {
    is_name_start(b) || is_digit(b)
}

pub open spec fn is_whitespace(b: u8) -> bool {
    b == SPACE || b == TAB || b == LINE_FEED || b == CARRIAGE_RETURN
}

/// Number of consecutive digits of `s` starting at index `i`.
pub open spec fn digit_run(s: Seq<u8>, i: nat) -> nat
    decreases s.len() - i,
{
    if i < s.len() && is_digit(s[i as int]) {
        1 + digit_run(s, i + 1)
    } else {
        0
    }
}

/// Number of consecutive name characters of `s` starting at index `i`.
pub open spec fn name_run(s: Seq<u8>, i: nat) -> nat
    decreases s.len() - i,
{
    if i < s.len() && is_name_char(s[i as int]) {
        1 + name_run(s, i + 1)
    } else {
        0
    }
}

/// Length of the number at the start of `s`: digits, optionally followed by
/// `.` and at least one digit; 0 when there is none. A `.` after the digits
/// that no digit follows makes the whole match fail.
pub open spec fn number_len(s: Seq<u8>) -> nat {
    let d = digit_run(s, 0);
    if d == 0 {
        0
    } else if d < s.len() && s[d as int] == DOT {
        let f = digit_run(s, d + 1);
        if f == 0 {
            0
        } else {
            d + 1 + f
        }
    } else {
        d
    }
}

/// Length of the name at the start of `s`; 0 when there is none.
pub open spec fn name_len(s: Seq<u8>) -> nat {
    if s.len() > 0 && is_name_start(s[0]) {
        1 + name_run(s, 1)
    } else {
        0
    }
}

/// Category of the one-byte punctuation token `b`, if it is one.
pub open spec fn punctuation(b: u8) -> Option<TokenType> {
    if b == EQUAL_SIGN {
        Some(TokenType::Equal)
    } else if b == OPEN_PAREN {
        Some(TokenType::LeftParenthesis)
    } else if b == CLOSE_PAREN {
        Some(TokenType::RightParenthesis)
    } else if b == COMMA {
        Some(TokenType::Comma)
    } else if b == PLUS_SIGN {
        Some(TokenType::Plus)
    } else if b == MINUS_SIGN {
        Some(TokenType::Minus)
    } else if is_whitespace(b) {
        Some(TokenType::Whitespace)
    } else {
        None
    }
}

/// Category of what `s` starts with when punctuation is not considered: a
/// number, else a name, else an unknown byte.
pub open spec fn other_kind(s: Seq<u8>) -> TokenType {
    if number_len(s) > 0 {
        TokenType::Number
    } else if name_len(s) > 0 {
        TokenType::Name
    } else {
        TokenType::Unknown
    }
}

/// Length of the token that `other_kind(s)` names.
pub open spec fn other_len(s: Seq<u8>) -> nat {
    if number_len(s) > 0 {
        number_len(s)
    } else if name_len(s) > 0 {
        name_len(s)
    } else {
        1
    }
}

/// Category and length of the token at the start of `s`.
pub open spec fn token_shape(s: Seq<u8>) -> (TokenType, nat) {
    if s.len() == 0 {
        (TokenType::EndOfFile, 0)
    } else if punctuation(s[0]).is_some() {
        (punctuation(s[0]).unwrap(), 1)
    } else if number_len(s) > 0 {
        (TokenType::Number, number_len(s))
    } else if name_len(s) > 0 {
        (TokenType::Name, name_len(s))
    } else {
        (TokenType::Unknown, 1)
    }
}

pub open spec fn token_kind(s: Seq<u8>) -> TokenType {
    token_shape(s).0
}

pub open spec fn token_len(s: Seq<u8>) -> nat {
    token_shape(s).1
}

/// The bytes of the token at the start of `s`.
pub open spec fn token_text(s: Seq<u8>) -> Seq<u8> {
    s.take(token_len(s) as int)
}

/// What is left of `s` after its first token.
pub open spec fn after_token(s: Seq<u8>) -> Seq<u8> {
    s.skip(token_len(s) as int)
}

/// What is left of `s` after `n` tokens have been consumed one by one.
pub open spec fn advance(s: Seq<u8>, n: nat) -> Seq<u8>
    decreases n,
{
    if n == 0 {
        s
    } else {
        after_token(advance(s, (n - 1) as nat))
    }
}

/// `s` without its leading whitespace tokens.
pub open spec fn skip_ws(s: Seq<u8>) -> Seq<u8>
    decreases s.len(),
{
    if s.len() > 0 && is_whitespace(s[0]) {
        skip_ws(s.skip(1))
    } else {
        s
    }
}

/// The whole token stream of `s`, as category and text, up to and including
/// the end-of-input token.
pub open spec fn lex_all(s: Seq<u8>) -> Seq<(TokenType, Seq<u8>)>
    decreases s.len(),
{
    if s.len() == 0 || token_len(s) == 0 || token_len(s) > s.len() {
        seq![(TokenType::EndOfFile, Seq::empty())]
    } else {
        seq![(token_kind(s), token_text(s))] + lex_all(after_token(s))
    }
}

/// The texts of `ts`, one after the other.
pub open spec fn concat_texts(ts: Seq<(TokenType, Seq<u8>)>) -> Seq<u8>
    decreases ts.len(),
{
    if ts.len() == 0 {
        Seq::empty()
    } else {
        ts[0].1 + concat_texts(ts.drop_first())
    }
}

pub open spec fn token_model(t: Token) -> (TokenType, Seq<u8>) {
    (t.token_type, t.contents@)
}

proof fn lemma_whitespace_kind(s: Seq<u8>)
    ensures
        token_kind(s) == TokenType::Whitespace <==> s.len() > 0 && is_whitespace(s[0]),
        s.len() > 0 && is_whitespace(s[0]) ==> after_token(s) == s.skip(1),
        !(s.len() > 0 && is_whitespace(s[0])) ==> skip_ws(s) == s,
{
    lemma_digit_run_bound(s, 0);
}

pub proof fn lemma_skip_ws_len(s: Seq<u8>)
    ensures
        skip_ws(s).len() <= s.len(),
        token_kind(skip_ws(s)) != TokenType::Whitespace,
        skip_ws(skip_ws(s)) == skip_ws(s),
    decreases s.len(),
{
    if s.len() > 0 && is_whitespace(s[0]) {
        lemma_skip_ws_len(s.skip(1));
    } else {
        lemma_whitespace_kind(s);
    }
}

/// Concatenating the text of every token of the stream, the end-of-input
/// token included, gives back the input exactly.
pub proof fn lemma_tokens_cover_input(s: Seq<u8>)
    ensures
        concat_texts(lex_all(s)) == s,
    decreases s.len(),
{
    lemma_token_len(s);
    if s.len() == 0 {
        let ts = lex_all(s);
        assert(ts.drop_first() =~= Seq::empty());
        assert(concat_texts(ts.drop_first()) == Seq::<u8>::empty());
        assert(concat_texts(ts) =~= s);
    } else {
        let rest = after_token(s);
        lemma_tokens_cover_input(rest);
        let ts = lex_all(s);
        assert(ts.drop_first() =~= lex_all(rest));
        assert(token_text(s) + rest =~= s);
    }
}

proof fn lemma_advance_shift(s: Seq<u8>, k: nat)
    ensures
        advance(s, k + 1) == advance(after_token(s), k),
    decreases k,
{
    if k > 0 {
        lemma_advance_shift(s, (k - 1) as nat);
        assert(advance(s, k + 1) == after_token(advance(s, k)));
        assert(advance(after_token(s), k) == after_token(
            advance(after_token(s), (k - 1) as nat),
        ));
    } else {
        assert(advance(s, 1) == after_token(advance(s, 0)));
    }
}

proof fn lemma_advance_empty(k: nat)
    ensures
        advance(Seq::<u8>::empty(), k) == Seq::<u8>::empty(),
    decreases k,
{
    if k > 0 {
        lemma_advance_empty((k - 1) as nat);
        lemma_token_len(Seq::<u8>::empty());
        assert(Seq::<u8>::empty().skip(0) =~= Seq::<u8>::empty());
    }
}

/// Looking `k` tokens ahead sees entry `k` of the token stream; past the
/// stream's end, only the end-of-input sentinel is left.
pub proof fn lemma_lookahead_in_stream(s: Seq<u8>, k: nat)
    ensures
        k < lex_all(s).len() ==> lex_all(s)[k as int] == (
            token_kind(advance(s, k)),
            token_text(advance(s, k)),
        ),
        k >= lex_all(s).len() ==> advance(s, k).len() == 0,
    decreases s.len(),
{
    lemma_token_len(s);
    if s.len() == 0 {
        assert(s =~= Seq::<u8>::empty());
        lemma_advance_empty(k);
        assert(token_text(s) =~= Seq::<u8>::empty());
    } else if k == 0 {
    } else {
        let rest = after_token(s);
        lemma_advance_shift(s, (k - 1) as nat);
        lemma_lookahead_in_stream(rest, (k - 1) as nat);
        assert(lex_all(s) == seq![(token_kind(s), token_text(s))] + lex_all(rest));
        assert(lex_all(s).len() == 1 + lex_all(rest).len());
        if k < lex_all(s).len() {
            assert(lex_all(s)[k as int] == lex_all(rest)[k - 1]);
        }
    }
}

pub proof fn lemma_digit_run_bound(s: Seq<u8>, i: nat)
    requires
        i <= s.len(),
    ensures
        i + digit_run(s, i) <= s.len(),
    decreases s.len() - i,
{
    if i < s.len() && is_digit(s[i as int]) {
        lemma_digit_run_bound(s, i + 1);
    }
}

pub proof fn lemma_name_run_bound(s: Seq<u8>, i: nat)
    requires
        i <= s.len(),
    ensures
        i + name_run(s, i) <= s.len(),
    decreases s.len() - i,
{
    if i < s.len() && is_name_char(s[i as int]) {
        lemma_name_run_bound(s, i + 1);
    }
}

/// A token never runs past the input, and only the end of input gives an
/// empty one.
pub proof fn lemma_token_len(s: Seq<u8>)
    ensures
        token_len(s) <= s.len(),
        token_len(s) == 0 <==> s.len() == 0,
        token_kind(s) == TokenType::EndOfFile <==> s.len() == 0,
{
    lemma_digit_run_bound(s, 0);
    if digit_run(s, 0) < s.len() {
        lemma_digit_run_bound(s, digit_run(s, 0) + 1);
    }
    if s.len() > 0 {
        lemma_name_run_bound(s, 1);
    }
}

fn byte_is_digit(b: u8) -> (r: bool)
    ensures
        r == is_digit(b),
{
    DIGIT_ZERO <= b && b <= DIGIT_NINE
}

fn byte_is_name_start(b: u8) -> (r: bool)
    ensures
        r == is_name_start(b),
{
    (LOWER_A <= b && b <= LOWER_Z) || (UPPER_A <= b && b <= UPPER_Z) || b == UNDERSCORE
}

fn byte_is_name_char(b: u8) -> (r: bool)
    ensures
        r == is_name_char(b),
{
    byte_is_name_start(b) || byte_is_digit(b)
}

/// A cursor over an immutable source buffer; its view is the input not yet
/// consumed.
#[derive(Clone, Copy)]
pub struct Lexer<'source> {
    source: &'source [u8],
}

impl<'source> View for Lexer<'source> {
    type V = Seq<u8>;

    closed spec fn view(&self) -> Seq<u8> {
        self.source@
    }
}

impl<'source> Lexer<'source> {
    pub fn new(source: &'source str) -> (r: Self)
        ensures
            r@ == source.spec_bytes(),
    {
        Lexer { source: source.as_bytes() }
    }

    fn read_bytes(&mut self, count: usize, token_type: TokenType) -> (r: Token<'source>)
        requires
            count <= old(self)@.len(),
        ensures
            r.token_type == token_type,
            r.contents@ == old(self)@.take(count as int),
            final(self)@ == old(self)@.skip(count as int),
    {
        let (contents, source) = self.source.split_at(count);
        self.source = source;
        Token { token_type, contents }
    }

    fn read_number(&mut self) -> (r: Option<&'source [u8]>)
        ensures
            number_len(old(self)@) == 0 ==> r.is_none() && final(self)@ == old(self)@,
            number_len(old(self)@) > 0 ==> r.is_some() && r.unwrap()@ == old(self)@.take(
                number_len(old(self)@) as int,
            ) && final(self)@ == old(self)@.skip(number_len(old(self)@) as int),
    {
        let s = self.source;
        let n = s.len();
        let mut i: usize = 0;
        while i < n && byte_is_digit(s[i])
            invariant
                i <= n,
                n == s@.len(),
                digit_run(s@, 0) == i + digit_run(s@, i as nat),
            decreases n - i,
        {
            i = i + 1;
        }
        if i == 0 {
            return None;
        }
        if i < n && s[i] == DOT {
            let mut j: usize = i + 1;
            while j < n && byte_is_digit(s[j])
                invariant
                    i < j <= n,
                    n == s@.len(),
                    digit_run(s@, (i + 1) as nat) == (j - i - 1) + digit_run(s@, j as nat),
                decreases n - j,
            {
                j = j + 1;
            }
            if j == i + 1 {
                return None;
            }
            i = j;
        }
        let (contents, source) = s.split_at(i);
        self.source = source;
        Some(contents)
    }

    fn read_name(&mut self) -> (r: Option<&'source [u8]>)
        ensures
            name_len(old(self)@) == 0 ==> r.is_none() && final(self)@ == old(self)@,
            name_len(old(self)@) > 0 ==> r.is_some() && r.unwrap()@ == old(self)@.take(
                name_len(old(self)@) as int,
            ) && final(self)@ == old(self)@.skip(name_len(old(self)@) as int),
    {
        let s = self.source;
        let n = s.len();
        if n == 0 || !byte_is_name_start(s[0]) {
            return None;
        }
        let mut i: usize = 1;
        while i < n && byte_is_name_char(s[i])
            invariant
                1 <= i <= n,
                n == s@.len(),
                name_run(s@, 1) == (i - 1) + name_run(s@, i as nat),
            decreases n - i,
        {
            i = i + 1;
        }
        let (contents, source) = s.split_at(i);
        self.source = source;
        Some(contents)
    }

    /// A number, else a name, else one byte of category Unknown.
    fn read_others(&mut self) -> (r: Token<'source>)
        requires
            old(self)@.len() > 0,
        ensures
            r.token_type == other_kind(old(self)@),
            r.contents@ == old(self)@.take(other_len(old(self)@) as int),
            final(self)@ == old(self)@.skip(other_len(old(self)@) as int),
            punctuation(old(self)@[0]).is_none() ==> r.token_type == token_kind(old(self)@)
                && r.contents@ == token_text(old(self)@) && final(self)@ == after_token(
                old(self)@,
            ),
    {
        if let Some(contents) = self.read_number() {
            Token { token_type: TokenType::Number, contents }
        } else if let Some(contents) = self.read_name() {
            Token { token_type: TokenType::Name, contents }
        } else {
            self.read_bytes(1, TokenType::Unknown)
        }
    }

    /// Consumes and returns the next token.
    pub fn next(&mut self) -> (r: Token<'source>)
        ensures
            r.token_type == token_kind(old(self)@),
            r.contents@ == token_text(old(self)@),
            final(self)@ == after_token(old(self)@),
    {
        if self.source.len() == 0 {
            return Token { token_type: TokenType::EndOfFile, contents: self.source };
        }
        let b = self.source[0];
        if b == EQUAL_SIGN {
            self.read_bytes(1, TokenType::Equal)
        } else if b == OPEN_PAREN {
            self.read_bytes(1, TokenType::LeftParenthesis)
        } else if b == CLOSE_PAREN {
            self.read_bytes(1, TokenType::RightParenthesis)
        } else if b == COMMA {
            self.read_bytes(1, TokenType::Comma)
        } else if b == PLUS_SIGN {
            self.read_bytes(1, TokenType::Plus)
        } else if b == MINUS_SIGN {
            self.read_bytes(1, TokenType::Minus)
        } else if b == LINE_FEED || b == CARRIAGE_RETURN || b == TAB || b == SPACE {
            self.read_bytes(1, TokenType::Whitespace)
        } else {
            self.read_others()
        }
    }

    /// The token `index` positions ahead, read from a copy of the cursor.
    pub fn peek(&self, index: u8) -> (r: Token<'source>)
        ensures
            r.token_type == token_kind(advance(self@, index as nat)),
            r.contents@ == token_text(advance(self@, index as nat)),
    {
        let mut lexer = *self;
        let mut i: u8 = 0;
        while i < index
            invariant
                i <= index,
                lexer@ == advance(self@, i as nat),
            decreases index - i,
        {
            lexer.next();
            i = i + 1;
        }
        lexer.next()
    }

    fn next_if_just(&mut self, token_type: TokenType) -> (r: Option<&'source [u8]>)
        ensures
            token_kind(old(self)@) == token_type ==> r.is_some() && r.unwrap()@ == token_text(
                old(self)@,
            ) && final(self)@ == after_token(old(self)@),
            token_kind(old(self)@) != token_type ==> r.is_none() && final(self)@ == old(self)@,
    {
        let token = self.peek(0);
        if token.token_type == token_type {
            self.next();
            Some(token.contents)
        } else {
            None
        }
    }

    /// Skips pending whitespace, then consumes the next token if it has the
    /// given category.
    pub fn next_if(&mut self, token_type: TokenType) -> (r: Option<&'source [u8]>)
        ensures
            token_kind(skip_ws(old(self)@)) == token_type ==> r.is_some() && r.unwrap()@
                == token_text(skip_ws(old(self)@)) && final(self)@ == after_token(
                skip_ws(old(self)@),
            ),
            token_kind(skip_ws(old(self)@)) != token_type ==> r.is_none() && final(self)@
                == skip_ws(old(self)@),
    {
        self.skip_whitespace();
        self.next_if_just(token_type)
    }

    /// Consumes whitespace tokens until another kind of token is next.
    pub fn skip_whitespace(&mut self)
        ensures
            final(self)@ == skip_ws(old(self)@),
    {
        loop
            invariant_except_break
                skip_ws(self@) == skip_ws(old(self)@),
            ensures
                self@ == skip_ws(old(self)@),
            decreases self@.len(),
        {
            proof {
                lemma_whitespace_kind(self@);
            }
            if self.next_if_just(TokenType::Whitespace).is_none() {
                break;
            }
        }
    }
}

/// Every token of `source`, in order, ending with the end-of-input token.
pub fn tokenize<'source>(source: &'source str) -> (r: Vec<Token<'source>>)
    ensures
        r@.map_values(|t: Token| token_model(t)) == lex_all(source.spec_bytes()),
{
    let mut lexer = Lexer::new(source);
    let mut tokens: Vec<Token<'source>> = Vec::new();
    loop
        invariant_except_break
            tokens@.map_values(|t: Token| token_model(t)) + lex_all(lexer@) == lex_all(
                source.spec_bytes(),
            ),
        ensures
            tokens@.map_values(|t: Token| token_model(t)) == lex_all(source.spec_bytes()),
        decreases lexer@.len(),
    {
        let ghost before = lexer@;
        let ghost old_tokens = tokens@;
        proof {
            lemma_token_len(before);
        }
        let token = lexer.next();
        tokens.push(token);
        assert(tokens@.map_values(|t: Token| token_model(t)) =~= old_tokens.map_values(
            |t: Token| token_model(t),
        ).push(token_model(token)));
        if token.token_type == TokenType::EndOfFile {
            assert(token.contents@ =~= Seq::<u8>::empty());
            assert(lex_all(before) =~= seq![token_model(token)]);
            assert(tokens@.map_values(|t: Token| token_model(t)) =~= lex_all(
                source.spec_bytes(),
            ));
            break;
        }
        assert(lex_all(before) =~= seq![token_model(token)] + lex_all(lexer@));
        assert(tokens@.map_values(|t: Token| token_model(t)) + lex_all(lexer@) =~= lex_all(
            source.spec_bytes(),
        ));
    }
    tokens
}

} // verus!
