//! The lexer: cuts a text into words and reads each word as a token.
use crate::ast::views;
use crate::constants::{outcome, Failure, Fault};
use crate::token::{Tok, Token};
use vstd::prelude::*;

verus! {

/// The pattern of a word: a run of letters and digits, or else a single
/// character that is no white space.
pub const WORD_PATTERN: &'static str = "[^\\W_]+|\\S";

/// The matches of a pattern in a text, from left to right and without
/// overlap, or `None` where the pattern is no regular expression.
pub uninterp spec fn pattern_matches(pattern: Seq<char>, text: Seq<char>) -> Option<Seq<Seq<char>>>;

/// Whether Unicode classes the character as numeric.
pub uninterp spec fn numeric_char(c: char) -> bool;

/// Whether Unicode classes the character as alphabetic.
pub uninterp spec fn alphabetic_char(c: char) -> bool;

/// The matches of `pattern` in `input`. Calls `regex::Regex::new` on the
/// pattern and `regex::Regex::captures_iter` on the text, and takes the
/// whole match of each capture, which is always present. What they find is
/// taken as given and named `pattern_matches`; a pattern that `Regex::new`
/// refuses gives `None`.
#[verifier::external_body]
fn find_matches(pattern: &str, input: &str) -> (r: Option<Vec<String>>)
    ensures
        match r {
            Some(words) => pattern_matches(pattern@, input@) == Some(views(words@)),
            None => pattern_matches(pattern@, input@) is None,
        },
{
    match regex::Regex::new(pattern) {
        Ok(re) => Some(
            re.captures_iter(input).map(|c| c.get(0).unwrap().as_str().to_string()).collect(),
        ),
        Err(_) => None,
    }
}

/// Whether `c` is numeric. Calls `char::is_numeric`, whose answer follows
/// the tables of Unicode and is taken as given.
#[verifier::external_body]
fn is_numeric(c: char) -> (b: bool)
    ensures
        b == numeric_char(c),
{
    c.is_numeric()
}

/// Whether `c` is alphabetic. Calls `char::is_alphabetic`, whose answer
/// follows the tables of Unicode and is taken as given.
#[verifier::external_body]
fn is_alphabetic(c: char) -> (b: bool)
    ensures
        b == alphabetic_char(c),
{
    c.is_alphabetic()
}

/// Whether `c` is one of the digits `0` to `9`.
pub open spec fn ascii_digit(c: char) -> bool {
    48 <= c as int <= 57
}

/// The number that a word of digits denotes in decimal notation.
pub open spec fn digits_value(w: Seq<char>) -> nat
    decreases w.len(),
{
    if w.len() == 0 {
        0
    } else {
        (digits_value(w.drop_last()) * 10 + (w.last() as int - 48)) as nat
    }
}

/// Whether every character of the word is numeric.
pub open spec fn all_numeric(w: Seq<char>) -> bool {
    forall|i: int| 0 <= i < w.len() ==> numeric_char(#[trigger] w[i])
}

/// Whether every character of the word is alphabetic.
pub open spec fn all_alphabetic(w: Seq<char>) -> bool {
    forall|i: int| 0 <= i < w.len() ==> alphabetic_char(#[trigger] w[i])
}

/// Whether every character of the word is one of the digits `0` to `9`.
pub open spec fn all_digits(w: Seq<char>) -> bool {
    forall|i: int| 0 <= i < w.len() ==> ascii_digit(#[trigger] w[i])
}

/// The token that a word stands for, if it is not a keyword or a sign,
/// given whether the word is numeric and whether it is alphabetic. A numeric
/// word is a number, which it must denote with the digits `0` to `9` and
/// within 64 bits; a word that is not numeric and is alphabetic is an
/// identifier.
pub open spec fn literal_for(w: Seq<char>, numeric: bool, alphabetic: bool) -> Result<Tok, Fault> {
    if numeric {
        if w.len() > 0 && all_digits(w) && digits_value(w) <= i64::MAX {
            Ok(Tok::NumericLiteral(digits_value(w) as i64))
        } else {
            Err(Fault::InvalidToken(w))
        }
    } else if alphabetic {
        Ok(Tok::Identifier(w))
    } else {
        Err(Fault::InvalidToken(w))
    }
}

/// The token that a word stands for, if it is not a keyword or a sign.
pub open spec fn literal_of(w: Seq<char>) -> Result<Tok, Fault> {
    literal_for(w, all_numeric(w), all_alphabetic(w))
}

/// The token that a word stands for.
pub open spec fn token_of(w: Seq<char>) -> Result<Tok, Fault> {
    if w == "*"@ {
        Ok(Tok::Deref)
    } else if w == "box"@ {
        Ok(Tok::Box)
    } else if w == "ref"@ {
        Ok(Tok::Ref)
    } else if w == "let"@ {
        Ok(Tok::Let)
    } else if w == "mut"@ {
        Ok(Tok::Mut)
    } else if w == "fn"@ {
        Ok(Tok::Fn)
    } else if w == ":"@ {
        Ok(Tok::Colon)
    } else if w == ","@ {
        Ok(Tok::Comma)
    } else if w == "("@ {
        Ok(Tok::LParen)
    } else if w == ")"@ {
        Ok(Tok::RParen)
    } else if w == "{"@ {
        Ok(Tok::LCurl)
    } else if w == "}"@ {
        Ok(Tok::RCurl)
    } else if w == "="@ {
        Ok(Tok::Assign)
    } else {
        literal_of(w)
    }
}

/// The tokens of the words from `from` up to `n`, in order, up to the first
/// word that is no token.
pub open spec fn tokens_of(words: Seq<Seq<char>>, from: nat, n: nat) -> Result<Seq<Tok>, Fault>
    decreases n,
{
    if n <= from {
        Ok(Seq::empty())
    } else {
        match tokens_of(words, from, (n - 1) as nat) {
            Err(e) => Err(e),
            Ok(ts) => match token_of(words[n - 1]) {
                Ok(t) => Ok(ts.push(t)),
                Err(e) => Err(e),
            },
        }
    }
}

/// Once the words up to `n` have failed, going on changes nothing.
pub proof fn lemma_tokens_fail(words: Seq<Seq<char>>, from: nat, n: nat, k: nat)
    requires
        n <= k,
        tokens_of(words, from, n) is Err,
    ensures
        tokens_of(words, from, k) == tokens_of(words, from, n),
    decreases k - n,
{
    if n < k {
        lemma_tokens_fail(words, from, n, (k - 1) as nat);
    }
}

/// Whether every character of `word` is numeric.
pub fn word_is_numeric(word: &str) -> (b: bool)
    ensures
        b == all_numeric(word@),
{
    let n = word.unicode_len();
    let mut i: usize = 0;
    while i < n
        invariant
            i <= n,
            n == word@.len(),
            forall|j: int| 0 <= j < i ==> numeric_char(#[trigger] word@[j]),
        decreases n - i,
    {
        if !is_numeric(word.get_char(i)) {
            return false;
        }
        i = i + 1;
    }
    true
}

/// Whether every character of `word` is alphabetic.
pub fn word_is_alphabetic(word: &str) -> (b: bool)
    ensures
        b == all_alphabetic(word@),
{
    let n = word.unicode_len();
    let mut i: usize = 0;
    while i < n
        invariant
            i <= n,
            n == word@.len(),
            forall|j: int| 0 <= j < i ==> alphabetic_char(#[trigger] word@[j]),
        decreases n - i,
    {
        if !is_alphabetic(word.get_char(i)) {
            return false;
        }
        i = i + 1;
    }
    true
}

/// A longer word of digits denotes at least what its beginning denotes.
pub proof fn lemma_digits_grow(w: Seq<char>, i: int)
    requires
        0 <= i <= w.len(),
        all_digits(w),
    ensures
        digits_value(w.take(i)) <= digits_value(w),
    decreases w.len() - i,
{
    if i < w.len() {
        lemma_digits_grow(w, i + 1);
        assert(w.take(i + 1).drop_last() =~= w.take(i));
        assert(ascii_digit(w[i]));
    } else {
        assert(w.take(i) =~= w);
    }
}

/// The number that a word of the digits `0` to `9` denotes, if it has a
/// digit, has nothing but digits and fits in 64 bits.
pub fn decimal_value(word: &str) -> (r: Option<i64>)
    ensures
        match r {
            Some(v) => word@.len() > 0 && all_digits(word@) && digits_value(word@) == v,
            None => !(word@.len() > 0 && all_digits(word@) && digits_value(word@) <= i64::MAX),
        },
{
    let n = word.unicode_len();
    if n == 0 {
        return None;
    }
    let mut value: i64 = 0;
    let mut i: usize = 0;
    assert(word@.take(0) =~= Seq::empty());
    while i < n
        invariant
            i <= n,
            n == word@.len(),
            all_digits(word@.take(i as int)),
            0 <= value,
            value == digits_value(word@.take(i as int)),
        decreases n - i,
    {
        let c = word.get_char(i);
        let code = c as u32;
        assert(word@.take(i + 1).drop_last() =~= word@.take(i as int));
        if code < 48 || code > 57 {
            assert(!ascii_digit(word@[i as int]));
            return None;
        }
        let d = (code - 48) as i64;
        assert(all_digits(word@.take(i + 1))) by {
            assert forall|j: int| 0 <= j < i + 1 implies ascii_digit(
                #[trigger] word@.take(i + 1)[j],
            ) by {
                if j < i {
                    assert(word@.take(i as int)[j] == word@.take(i + 1)[j]);
                }
            }
        }
        if value > (i64::MAX - d) / 10 {
            proof {
                if all_digits(word@) {
                    lemma_digits_grow(word@, i + 1);
                }
            }
            return None;
        }
        value = value * 10 + d;
        i = i + 1;
    }
    assert(word@.take(i as int) =~= word@);
    Some(value)
}

/// The lexer: the words of a text, and how many of them have been read.
pub struct Lexer {
    pub input: Vec<String>,
    pub current_position: usize,
}

/// The model of a `Lexer`.
pub struct Scanner {
    pub input: Seq<Seq<char>>,
    pub current_position: usize,
}

impl View for Lexer {
    type V = Scanner;

    open spec fn view(&self) -> Scanner {
        Scanner { input: views(self.input@), current_position: self.current_position }
    }
}

impl Lexer {
    /// A lexer on the words of `input`, where the pattern of a word is a
    /// regular expression.
    pub fn new(input: &str) -> (r: Lexer)
        requires
            pattern_matches(WORD_PATTERN@, input@) is Some,
        ensures
            r@ == (Scanner {
                input: pattern_matches(WORD_PATTERN@, input@)->0,
                current_position: 0,
            }),
    {
        match find_matches(WORD_PATTERN, input) {
            Some(words) => Lexer { input: words, current_position: 0 },
            None => Lexer { input: Vec::new(), current_position: 0 },
        }
    }

    /// A lexer on the words of `input`, or `None` where the pattern of a
    /// word is no regular expression.
    pub fn try_new(input: &str) -> (r: Option<Lexer>)
        ensures
            match r {
                Some(lexer) => pattern_matches(WORD_PATTERN@, input@) is Some && lexer@ == (
                Scanner {
                    input: pattern_matches(WORD_PATTERN@, input@)->0,
                    current_position: 0,
                }),
                None => pattern_matches(WORD_PATTERN@, input@) is None,
            },
    {
        match find_matches(WORD_PATTERN, input) {
            Some(_) => Some(Lexer::new(input)),
            None => None,
        }
    }

    /// The token that `word` stands for if it is not a keyword or a sign,
    /// given whether it is numeric and whether it is alphabetic.
    pub fn classify(word: &String, numeric: bool, alphabetic: bool) -> (r: Result<Token, Failure>)
        ensures
            outcome(r) == literal_for(word@, numeric, alphabetic),
    {
        if numeric {
            match decimal_value(word.as_str()) {
                Some(v) => Ok(Token::NumericLiteral(v)),
                None => Err(Failure::InvalidToken(word.clone())),
            }
        } else if alphabetic {
            Ok(Token::Identifier(word.clone()))
        } else {
            Err(Failure::InvalidToken(word.clone()))
        }
    }

    /// The token that `word` stands for.
    pub fn read_word(word: &String) -> (r: Result<Token, Failure>)
        ensures
            outcome(r) == token_of(word@),
    {
        if *word == String::from_str("*") {
            Ok(Token::Deref)
        } else if *word == String::from_str("box") {
            Ok(Token::Box)
        } else if *word == String::from_str("ref") {
            Ok(Token::Ref)
        } else if *word == String::from_str("let") {
            Ok(Token::Let)
        } else if *word == String::from_str("mut") {
            Ok(Token::Mut)
        } else if *word == String::from_str("fn") {
            Ok(Token::Fn)
        } else if *word == String::from_str(":") {
            Ok(Token::Colon)
        } else if *word == String::from_str(",") {
            Ok(Token::Comma)
        } else if *word == String::from_str("(") {
            Ok(Token::LParen)
        } else if *word == String::from_str(")") {
            Ok(Token::RParen)
        } else if *word == String::from_str("{") {
            Ok(Token::LCurl)
        } else if *word == String::from_str("}") {
            Ok(Token::RCurl)
        } else if *word == String::from_str("=") {
            Ok(Token::Assign)
        } else {
            let numeric = word_is_numeric(word.as_str());
            let alphabetic = word_is_alphabetic(word.as_str());
            Lexer::classify(word, numeric, alphabetic)
        }
    }

    /// The token of the word at the current position, and `EOF` behind the
    /// last word.
    pub fn next_token(&self) -> (r: Result<Token, Failure>)
        ensures
            outcome(r) == (if self@.current_position < self@.input.len() {
                token_of(self@.input[self@.current_position as int])
            } else {
                Ok(Tok::EOF)
            }),
    {
        if self.current_position < self.input.len() {
            Lexer::read_word(&self.input[self.current_position])
        } else {
            Ok(Token::EOF)
        }
    }

    /// The tokens of the words from the current position on. Afterwards the
    /// position is behind the last word that was read: one past the end when
    /// every word is a token, and at the word that is none otherwise.
    pub fn tokenize(&mut self) -> (r: Result<Vec<Token>, Failure>)
        requires
            old(self)@.current_position < usize::MAX,
            old(self)@.input.len() < usize::MAX,
        ensures
            final(self)@.input == old(self)@.input,
            match r {
                Ok(tokens) => tokens_of(
                    old(self)@.input,
                    old(self)@.current_position as nat,
                    old(self)@.input.len(),
                ) == Ok::<Seq<Tok>, Fault>(views(tokens@)) && final(self)@.current_position == (
                if old(self)@.current_position <= old(self)@.input.len() {
                    (old(self)@.input.len() + 1) as int
                } else {
                    (old(self)@.current_position + 1) as int
                }),
                Err(e) => tokens_of(
                    old(self)@.input,
                    old(self)@.current_position as nat,
                    old(self)@.input.len(),
                ) == Err::<Seq<Tok>, Fault>(e@)
                    && old(self)@.current_position <= final(self)@.current_position
                    && final(self)@.current_position < old(self)@.input.len()
                    && tokens_of(
                    old(self)@.input,
                    old(self)@.current_position as nat,
                    final(self)@.current_position as nat,
                ) is Ok
                    && token_of(old(self)@.input[final(self)@.current_position as int]) == Err::<
                    Tok,
                    Fault,
                >(e@),
            },
    {
        let mut tokens: Vec<Token> = Vec::new();
        let ghost from = self.current_position as nat;
        assert(views(tokens@) =~= Seq::empty());
        while self.current_position < self.input.len()
            invariant
                self@.input == old(self)@.input,
                self.input@.len() == old(self).input@.len(),
                from == old(self)@.current_position,
                from <= self.current_position,
                self.current_position <= self.input@.len() || self.current_position == from,
                self.current_position < usize::MAX,
                self.input@.len() < usize::MAX,
                tokens_of(self@.input, from, self.current_position as nat) == Ok::<
                    Seq<Tok>,
                    Fault,
                >(views(tokens@)),
            decreases self.input@.len() - self.current_position,
        {
            let ghost before = views(tokens@);
            match self.next_token() {
                Ok(t) => {
                    tokens.push(t);
                    assert(views(tokens@) =~= before.push(tokens@[tokens@.len() - 1]@));
                },
                Err(e) => {
                    proof {
                        lemma_tokens_fail(
                            self@.input,
                            from,
                            (self.current_position + 1) as nat,
                            self@.input.len(),
                        );
                    }
                    return Err(e);
                },
            }
            self.current_position = self.current_position + 1;
        }
        self.current_position = self.current_position + 1;
        Ok(tokens)
    }
}

} // verus!
