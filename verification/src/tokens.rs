//! Tokens, and the splitting of a text into tokens.

use crate::alphabet::{all_letters, chars_of, is_alphabetic, is_blank, is_letter, is_symbol};
use vstd::prelude::*;
use vstd::std_specs::cmp::PartialEqSpecImpl;

verus! {

/// A lexical unit of an expression, with the offset of its first character
/// in the source text. Offsets and lengths count characters.
#[derive(Debug)]
pub enum Token {
    Value(usize, bool),
    Variable(usize, String),
    Operator(usize, String),
    OpenParanthesis(usize),
    CloseParanthesis(usize),
}

/// The mathematical value of a [`Token`].
pub enum TokenView {
    Value { pos: int, value: bool },
    Variable { pos: int, name: Seq<char> },
    Operator { pos: int, name: Seq<char> },
    Open { pos: int },
    Close { pos: int },
}

impl TokenView {
    /// Offset of the token's first character.
    pub open spec fn pos(self) -> int {
        match self {
            TokenView::Value { pos, .. } => pos,
            TokenView::Variable { pos, .. } => pos,
            TokenView::Operator { pos, .. } => pos,
            TokenView::Open { pos } => pos,
            TokenView::Close { pos } => pos,
        }
    }

    /// The token as it is written.
    pub open spec fn name(self) -> Seq<char> {
        match self {
            TokenView::Value { value, .. } => if value {
                seq!['1']
            } else {
                seq!['0']
            },
            TokenView::Variable { name, .. } => name,
            TokenView::Operator { name, .. } => name,
            TokenView::Open { .. } => seq!['('],
            TokenView::Close { .. } => seq![')'],
        }
    }

    /// Number of characters the token takes up.
    pub open spec fn len(self) -> int {
        self.name().len() as int
    }

    /// Offset just past the token's last character.
    pub open spec fn end(self) -> int {
        self.pos() + self.len()
    }

    /// The same token, `by` characters further on.
    pub open spec fn shifted(self, by: int) -> TokenView {
        match self {
            TokenView::Value { pos, value } => TokenView::Value { pos: pos + by, value },
            TokenView::Variable { pos, name } => TokenView::Variable { pos: pos + by, name },
            TokenView::Operator { pos, name } => TokenView::Operator { pos: pos + by, name },
            TokenView::Open { pos } => TokenView::Open { pos: pos + by },
            TokenView::Close { pos } => TokenView::Close { pos: pos + by },
        }
    }
}

impl View for Token {
    type V = TokenView;

    open spec fn view(&self) -> TokenView {
        match *self {
            Token::Value(pos, value) => TokenView::Value { pos: pos as int, value },
            Token::Variable(pos, name) => TokenView::Variable { pos: pos as int, name: name@ },
            Token::Operator(pos, name) => TokenView::Operator { pos: pos as int, name: name@ },
            Token::OpenParanthesis(pos) => TokenView::Open { pos: pos as int },
            Token::CloseParanthesis(pos) => TokenView::Close { pos: pos as int },
        }
    }
}

/// The values of a sequence of tokens.
pub open spec fn views(tokens: Seq<Token>) -> Seq<TokenView> {
    tokens.map_values(|t: Token| t@)
}

impl PartialEq for Token {
    /// Two tokens are equal when they are of the same kind, at the same
    /// offset, with the same value or name.
    fn eq(&self, other: &Self) -> (r: bool) {
        match self {
            Token::Value(spos, svalue) => match other {
                Token::Value(opos, ovalue) => *spos == *opos && *svalue == *ovalue,
                _ => false,
            },
            Token::Variable(spos, sname) => match other {
                Token::Variable(opos, oname) => *spos == *opos && *sname == *oname,
                _ => false,
            },
            Token::Operator(spos, sname) => match other {
                Token::Operator(opos, oname) => *spos == *opos && *sname == *oname,
                _ => false,
            },
            Token::OpenParanthesis(spos) => match other {
                Token::OpenParanthesis(opos) => *spos == *opos,
                _ => false,
            },
            Token::CloseParanthesis(spos) => match other {
                Token::CloseParanthesis(opos) => *spos == *opos,
                _ => false,
            },
        }
    }
}

impl PartialEqSpecImpl for Token {
    open spec fn obeys_eq_spec() -> bool {
        true
    }

    open spec fn eq_spec(&self, other: &Token) -> bool {
        self@ == other@
    }
}

/// Where in the source text an expression is wrong, and why.
#[derive(Debug)]
pub struct ParseError {
    pub message: String,
    pub pos: usize,
    pub len: usize,
}

/// The mathematical value of a [`ParseError`].
pub struct ParseErrorView {
    pub message: Seq<char>,
    pub pos: int,
    pub len: int,
}

impl View for ParseError {
    type V = ParseErrorView;

    open spec fn view(&self) -> ParseErrorView {
        ParseErrorView { message: self.message@, pos: self.pos as int, len: self.len as int }
    }
}

/// Offset of the token's first character, counted in characters.
pub fn token_pos(token: &Token) -> (pos: usize)
    ensures
        pos == token@.pos(),
{
    match token {
        Token::Value(pos, _) => *pos,
        Token::Variable(pos, _) => *pos,
        Token::Operator(pos, _) => *pos,
        Token::OpenParanthesis(pos) => *pos,
        Token::CloseParanthesis(pos) => *pos,
    }
}

/// Number of characters that the token takes up.
pub fn token_len(token: &Token) -> (len: usize)
    ensures
        len == token@.len(),
{
    match token {
        Token::Value(_, _) => 1,
        Token::Variable(_, name) => name.as_str().unicode_len(),
        Token::Operator(_, name) => name.as_str().unicode_len(),
        Token::OpenParanthesis(_) => 1,
        Token::CloseParanthesis(_) => 1,
    }
}

/// The token as it is written.
pub fn token_name(token: &Token) -> (name: &str)
    ensures
        name@ == token@.name(),
{
    proof {
        reveal_strlit("1");
        reveal_strlit("0");
        reveal_strlit("(");
        reveal_strlit(")");
    }
    match token {
        Token::Value(_, value) => if *value {
            "1"
        } else {
            "0"
        },
        Token::Operator(_, name) => name.as_str(),
        Token::Variable(_, name) => name.as_str(),
        Token::OpenParanthesis(_) => "(",
        Token::CloseParanthesis(_) => ")",
    }
}

/// Whether the character at offset `i` of `s` may stand where it stands:
/// white space, a letter, a one-character token, or the `>` of `=>`.
pub open spec fn valid_at(s: Seq<char>, i: int) -> bool {
    let c = s[i];
    is_blank(c) || is_letter(c) || is_symbol(c) || (c == '>' && i > 0 && s[i - 1] == '=')
}

/// Offset of the first character of `s`, from offset `i` on, that may not
/// stand where it stands; the length of `s` where there is none.
pub open spec fn first_invalid(s: Seq<char>, i: int) -> int
    decreases s.len() - i,
{
    if i < 0 || i >= s.len() {
        s.len() as int
    } else if !valid_at(s, i) {
        i
    } else {
        first_invalid(s, i + 1)
    }
}

/// Whether a token starts at offset `i` of `s`: at a letter that follows no
/// letter, and at every one-character token.
pub open spec fn starts_token(s: Seq<char>, i: int) -> bool {
    (is_letter(s[i]) && !(i > 0 && is_letter(s[i - 1]))) || is_symbol(s[i])
}

/// Offset just past the run of letters that holds offset `i` of `s`.
pub open spec fn word_end(s: Seq<char>, i: int) -> int
    decreases s.len() - i,
{
    if 0 <= i < s.len() && is_letter(s[i]) {
        word_end(s, i + 1)
    } else {
        i
    }
}

/// The token that starts at offset `i` of `s`, where one does.
pub open spec fn token_at(s: Seq<char>, i: int) -> TokenView {
    let c = s[i];
    if is_letter(c) {
        TokenView::Variable { pos: i, name: s.subrange(i, word_end(s, i)) }
    } else if c == '0' || c == '1' {
        TokenView::Value { pos: i, value: c == '1' }
    } else if c == '(' {
        TokenView::Open { pos: i }
    } else if c == ')' {
        TokenView::Close { pos: i }
    } else if c == '=' && i + 1 < s.len() && s[i + 1] == '>' {
        TokenView::Operator { pos: i, name: seq!['=', '>'] }
    } else {
        TokenView::Operator { pos: i, name: seq![c] }
    }
}

/// The tokens that start before offset `n` of `s`, in the order of their
/// offsets.
pub open spec fn tokens_before(s: Seq<char>, n: int) -> Seq<TokenView>
    decreases n,
{
    if n <= 0 {
        Seq::empty()
    } else if starts_token(s, n - 1) {
        tokens_before(s, n - 1).push(token_at(s, n - 1))
    } else {
        tokens_before(s, n - 1)
    }
}

/// All tokens of `s`.
pub open spec fn tokens_of(s: Seq<char>) -> Seq<TokenView> {
    tokens_before(s, s.len() as int)
}

/// The error for a character that belongs to no token.
pub open spec fn invalid_character(c: char, pos: int) -> ParseErrorView {
    ParseErrorView { message: "Invalid character '"@ + seq![c] + "'"@, pos, len: 1 }
}

/// The error for a text that holds no token.
pub open spec fn no_input(pos: int) -> ParseErrorView {
    ParseErrorView { message: "no input."@, pos, len: 0 }
}

/// What tokenizing `s` gives: the error for its first character that belongs
/// to no token; else the error for a text without tokens; else its tokens.
pub open spec fn tokenize_spec(s: Seq<char>) -> Result<Seq<TokenView>, ParseErrorView> {
    let bad = first_invalid(s, 0);
    if bad < s.len() {
        Err(invalid_character(s[bad], bad))
    } else if tokens_of(s).len() == 0 {
        Err(no_input(s.len() as int))
    } else {
        Ok(tokens_of(s))
    }
}

/// Tokens stand at rising offsets, none reaches into the next, and the end
/// of each is an offset that a machine word holds.
pub open spec fn well_positioned(tokens: Seq<TokenView>) -> bool {
    &&& forall|i: int| 0 <= i < tokens.len() ==> 0 <= (#[trigger] tokens[i]).pos()
    &&& forall|i: int| 0 <= i < tokens.len() ==> (#[trigger] tokens[i]).end() <= usize::MAX
    &&& forall|i: int, j: int|
        0 <= i < j < tokens.len() ==> (#[trigger] tokens[i]).end() <= (#[trigger] tokens[j]).pos()
}

/// Whether the tokens are well positioned: at rising offsets, none
/// reaching into the next, each ending at an offset that a machine word
/// holds.
pub fn are_well_positioned(tokens: &[Token]) -> (r: bool)
    ensures
        r == well_positioned(views(tokens@)),
{
    let ghost ts = views(tokens@);
    let mut end: usize = 0;
    for i in 0..tokens.len()
        invariant
            ts == views(tokens@),
            well_positioned(ts.take(i as int)),
            forall|k: int| 0 <= k < i ==> (#[trigger] ts[k]).end() <= end,
            i == 0 ==> end == 0,
            i > 0 ==> end == ts[i - 1].end(),
    {
        let token = &tokens[i];
        assert(ts[i as int] == token@);
        let pos = token_pos(token);
        let len = token_len(token);
        if pos < end || len > usize::MAX - pos {
            proof {
                if pos < end {
                    assert(ts[i - 1].end() > ts[i as int].pos());
                }
            }
            return false;
        }
        proof {
            let shorter = ts.take(i as int);
            let longer = ts.take(i + 1);
            assert forall|k: int| 0 <= k < longer.len() implies 0 <= (#[trigger] longer[k]).pos()
                && longer[k].end() <= usize::MAX by {
                if k < i {
                    assert(longer[k] == shorter[k]);
                }
            }
            assert forall|k: int, j: int| 0 <= k < j < longer.len() implies (
            #[trigger] longer[k]).end() <= (#[trigger] longer[j]).pos() by {
                if j < i {
                    assert(longer[k] == shorter[k]);
                    assert(longer[j] == shorter[j]);
                } else {
                    assert(longer[k] == ts[k]);
                }
            }
        }
        end = pos + len;
    }
    assert(ts.take(tokens.len() as int) =~= ts);
    true
}

/// Where every character from `i` up to `j` is valid and the one at `j` is
/// not, `j` is the first invalid offset from `i` on.
pub proof fn lemma_first_invalid(s: Seq<char>, i: int, j: int)
    requires
        0 <= i <= j <= s.len(),
        forall|k: int| i <= k < j ==> valid_at(s, k),
        j < s.len() ==> !valid_at(s, j),
    ensures
        first_invalid(s, i) == j,
    decreases j - i,
{
    if i < j {
        lemma_first_invalid(s, i + 1, j);
    }
}

/// A run of letters from `i` up to `j` ends where the run from `j` ends.
pub proof fn lemma_word_end(s: Seq<char>, i: int, j: int)
    requires
        0 <= i <= j <= s.len(),
        forall|k: int| i <= k < j ==> is_letter(s[k]),
    ensures
        word_end(s, i) == word_end(s, j),
    decreases j - i,
{
    if i < j {
        lemma_word_end(s, i + 1, j);
    }
}

/// No token starts from `i` up to `j` where none of these offsets starts one.
pub proof fn lemma_no_token_starts(s: Seq<char>, i: int, j: int)
    requires
        0 <= i <= j,
        forall|k: int| i <= k < j ==> !starts_token(s, k),
    ensures
        tokens_before(s, j) == tokens_before(s, i),
    decreases j - i,
{
    if i < j {
        lemma_no_token_starts(s, i, j - 1);
    }
}

/// Where the search for an invalid character from `i` on finds none, every
/// character from `i` on is valid.
pub proof fn lemma_all_valid(s: Seq<char>, i: int)
    requires
        0 <= i,
        first_invalid(s, i) >= s.len(),
    ensures
        forall|k: int| i <= k < s.len() ==> valid_at(s, k),
    decreases s.len() - i,
{
    if i < s.len() {
        lemma_all_valid(s, i + 1);
    }
}

/// The tokens of a sequence, each `by` characters further on.
pub open spec fn shift(tokens: Seq<TokenView>, by: int) -> Seq<TokenView> {
    tokens.map_values(|t: TokenView| t.shifted(by))
}

/// Two characters that, one after the other, never belong to one token.
pub open spec fn apart(before: char, after: char) -> bool {
    &&& !(is_letter(before) && is_letter(after))
    &&& !(before == '=' && after == '>')
}

/// `part` stands in `whole` at offset `at`, and neither its first nor its
/// last character belongs to one token with its neighbour in `whole`.
pub open spec fn stands_apart(whole: Seq<char>, part: Seq<char>, at: int) -> bool {
    &&& 0 <= at
    &&& at + part.len() <= whole.len()
    &&& whole.subrange(at, at + part.len()) == part
    &&& at > 0 && part.len() > 0 ==> apart(whole[at - 1], part[0])
    &&& at + part.len() < whole.len() && part.len() > 0 ==> apart(
        part.last(),
        whole[at + part.len()],
    )
}

/// A run of letters within a part of a text that stands apart ends where it
/// ends in the part.
proof fn lemma_word_end_within(whole: Seq<char>, part: Seq<char>, at: int, i: int)
    requires
        stands_apart(whole, part, at),
        0 <= i < part.len(),
        is_letter(part[i]),
    ensures
        word_end(whole, at + i) == at + word_end(part, i),
    decreases part.len() - i,
{
    let n = part.len() as int;
    assert forall|k: int| 0 <= k < n implies whole[at + k] == part[k] by {
        assert(whole.subrange(at, at + n)[k] == whole[at + k]);
    }
    assert(whole[at + i] == part[i]);
    assert(word_end(whole, at + i) == word_end(whole, at + i + 1));
    assert(word_end(part, i) == word_end(part, i + 1));
    if i + 1 < n {
        assert(whole[at + (i + 1)] == part[i + 1]);
        if is_letter(part[i + 1]) {
            lemma_word_end_within(whole, part, at, i + 1);
        } else {
            assert(word_end(whole, at + i + 1) == at + i + 1);
            assert(word_end(part, i + 1) == i + 1);
        }
    } else {
        assert(part.last() == part[i]);
        assert(word_end(whole, at + i + 1) == at + i + 1);
        assert(word_end(part, i + 1) == i + 1);
    }
}

/// Splitting a text into tokens is local: the tokens that start within a
/// part that stands apart are the tokens of the part by itself, further on
/// by the offset of the part; and a character of the part is valid in the
/// whole if and only if it is valid in the part.
pub proof fn lemma_window(whole: Seq<char>, part: Seq<char>, at: int, k: int)
    requires
        stands_apart(whole, part, at),
        0 <= k <= part.len(),
    ensures
        tokens_before(whole, at + k) == tokens_before(whole, at) + shift(
            tokens_before(part, k),
            at,
        ),
        forall|i: int| 0 <= i < k ==> valid_at(whole, at + i) == valid_at(part, i),
    decreases k,
{
    let n = part.len() as int;
    if k == 0 {
        assert(tokens_before(whole, at) =~= tokens_before(whole, at) + shift(
            tokens_before(part, 0),
            at,
        ));
    } else {
        let i = k - 1;
        lemma_window(whole, part, at, i);
        assert forall|j: int| 0 <= j < n implies whole[at + j] == part[j] by {
            assert(whole.subrange(at, at + n)[j] == whole[at + j]);
        }
        assert(whole[at + i] == part[i]);
        if i > 0 {
            assert(whole[at + (i - 1)] == part[i - 1]);
        }
        if i + 1 < n {
            assert(whole[at + (i + 1)] == part[i + 1]);
        } else {
            assert(part.last() == part[i]);
        }
        assert(valid_at(whole, at + i) == valid_at(part, i));
        assert(starts_token(whole, at + i) == starts_token(part, i));
        if starts_token(part, i) {
            if is_letter(part[i]) {
                lemma_word_end_within(whole, part, at, i);
                lemma_word_end_bounds(part, i);
                let end = word_end(part, i);
                let in_whole = whole.subrange(at + i, at + end);
                let in_part = part.subrange(i, end);
                assert forall|j: int| 0 <= j < end - i implies in_whole[j] == in_part[j] by {
                    assert(whole[at + (i + j)] == part[i + j]);
                }
                assert(in_whole =~= in_part);
            }
            assert(token_at(whole, at + i) == token_at(part, i).shifted(at));
            assert(shift(tokens_before(part, i).push(token_at(part, i)), at) =~= shift(
                tokens_before(part, i),
                at,
            ).push(token_at(part, i).shifted(at)));
            assert(tokens_before(whole, at + k) =~= tokens_before(whole, at) + shift(
                tokens_before(part, k),
                at,
            ));
        }
    }
}

/// A run of letters ends within the text, at or after the place it is
/// followed from.
pub proof fn lemma_word_end_bounds(s: Seq<char>, i: int)
    requires
        0 <= i <= s.len(),
    ensures
        i <= word_end(s, i) <= s.len(),
    decreases s.len() - i,
{
    if i < s.len() && is_letter(s[i]) {
        lemma_word_end_bounds(s, i + 1);
    }
}

/// A variable token has a name: one letter or more, and nothing but
/// letters.
pub open spec fn named_by_letters(token: TokenView) -> bool {
    token matches TokenView::Variable { name, .. } ==> name.len() > 0 && all_letters(name)
}

/// From a letter at `i` up to the end of its run there are letters only.
pub proof fn lemma_word_letters(s: Seq<char>, i: int)
    requires
        0 <= i < s.len(),
        is_letter(s[i]),
    ensures
        i < word_end(s, i) <= s.len(),
        forall|k: int| i <= k < word_end(s, i) ==> is_letter(s[k]),
    decreases s.len() - i,
{
    assert(word_end(s, i) == word_end(s, i + 1));
    if i + 1 < s.len() && is_letter(s[i + 1]) {
        lemma_word_letters(s, i + 1);
    } else {
        assert(word_end(s, i + 1) == i + 1);
    }
}

/// The variables among the tokens of a text are named by letters.
pub proof fn lemma_tokens_named_by_letters(s: Seq<char>, n: int)
    requires
        0 <= n <= s.len(),
    ensures
        forall|i: int|
            0 <= i < tokens_before(s, n).len() ==> named_by_letters(
                #[trigger] tokens_before(s, n)[i],
            ),
    decreases n,
{
    if n > 0 {
        lemma_tokens_named_by_letters(s, n - 1);
        let shorter = tokens_before(s, n - 1);
        if starts_token(s, n - 1) {
            let token = token_at(s, n - 1);
            if is_letter(s[n - 1]) {
                lemma_word_letters(s, n - 1);
                let name = s.subrange(n - 1, word_end(s, n - 1));
                assert forall|k: int| 0 <= k < name.len() implies is_letter(#[trigger] name[k]) by {
                    assert(name[k] == s[n - 1 + k]);
                }
            }
            assert(named_by_letters(token));
            assert forall|i: int| 0 <= i < tokens_before(s, n).len() implies named_by_letters(
                #[trigger] tokens_before(s, n)[i],
            ) by {
                if i < shorter.len() {
                    assert(tokens_before(s, n)[i] == shorter[i]);
                }
            }
        }
    }
}

/// A text of white space only, and the empty text, holds no token:
/// tokenizing it fails with "no input." at its end.
pub proof fn lemma_blank_text(s: Seq<char>)
    requires
        forall|i: int| 0 <= i < s.len() ==> is_blank(s[i]),
    ensures
        tokenize_spec(s) == Err::<Seq<TokenView>, ParseErrorView>(no_input(s.len() as int)),
{
    lemma_first_invalid(s, 0, s.len() as int);
    lemma_no_token_starts(s, 0, s.len() as int);
}

/// Tokenizing fails at the first character that belongs to no token, and
/// the error spans that one character.
pub proof fn lemma_invalid_character(s: Seq<char>, i: int)
    requires
        0 <= i < s.len(),
        !valid_at(s, i),
        forall|k: int| 0 <= k < i ==> valid_at(s, k),
    ensures
        tokenize_spec(s) == Err::<Seq<TokenView>, ParseErrorView>(invalid_character(s[i], i)),
{
    lemma_first_invalid(s, 0, i);
}

/// A single character that is neither white space, a letter nor a token by
/// itself fails as a text, and the error spans it.
pub proof fn lemma_single_invalid_character(c: char)
    requires
        !is_blank(c),
        !is_letter(c),
        !is_symbol(c),
    ensures
        tokenize_spec(seq![c]) == Err::<Seq<TokenView>, ParseErrorView>(invalid_character(c, 0)),
{
    lemma_invalid_character(seq![c], 0);
}

/// Splits the text of an expression into its tokens: names of letters,
/// the values `0` and `1`, the operators `!`, `&`, `|`, `^`, `=` and `=>`,
/// and parentheses, with spaces and tabs between them as one likes. Fails at
/// the first character that belongs to none of these, and on a text without
/// tokens.
pub fn tokenize(str: &str) -> (r: Result<Vec<Token>, ParseError>)
    ensures
        match r {
            Ok(tokens) => tokenize_spec(str@) == Ok::<Seq<TokenView>, ParseErrorView>(
                views(tokens@),
            ) && well_positioned(views(tokens@)),
            Err(e) => tokenize_spec(str@) == Err::<Seq<TokenView>, ParseErrorView>(e@),
        },
        (forall|i: int| 0 <= i < str@.len() ==> is_blank(str@[i])) ==> r is Err && r->Err_0@
            == no_input(str@.len() as int),
        forall|i: int|
            0 <= i < str@.len() && !valid_at(str@, i) && (forall|k: int|
                0 <= k < i ==> valid_at(str@, k)) ==> r is Err && r->Err_0@ == invalid_character(
                str@[i],
                i,
            ),
{
    proof {
        if forall|i: int| 0 <= i < str@.len() ==> is_blank(str@[i]) {
            lemma_blank_text(str@);
        }
        assert forall|i: int|
            0 <= i < str@.len() && !valid_at(str@, i) && (forall|k: int|
                0 <= k < i ==> valid_at(str@, k)) implies tokenize_spec(str@) == Err::<
            Seq<TokenView>,
            ParseErrorView,
        >(invalid_character(str@[i], i)) by {
            lemma_invalid_character(str@, i);
        }
    }
    let chars = chars_of(str);
    let n = chars.len();
    let ghost s = str@;
    let mut tokens: Vec<Token> = Vec::new();
    let mut pos: usize = 0;
    while pos < n
        invariant
            chars@ == s,
            s == str@,
            n == s.len(),
            pos <= n,
            forall|k: int| 0 <= k < pos ==> valid_at(s, k),
            0 < pos < n ==> !(is_letter(s[pos - 1]) && is_letter(s[pos as int])),
            0 < pos < n ==> !(s[pos - 1] == '=' && s[pos as int] == '>'),
            views(tokens@) == tokens_before(s, pos as int),
            well_positioned(views(tokens@)),
            forall|i: int| 0 <= i < tokens.len() ==> (#[trigger] views(tokens@)[i]).end() <= pos,
        decreases n - pos,
    {
        let c = chars[pos];
        let ghost before = views(tokens@);
        if c == ' ' || c == '\t' {
            pos += 1;
        } else if is_alphabetic(c) {
            let mut end: usize = pos + 1;
            while end < n && is_alphabetic(chars[end])
                invariant
                    chars@ == s,
                    n == s.len(),
                    pos < end <= n,
                    forall|k: int| pos <= k < end ==> is_letter(s[k]),
                decreases n - end,
            {
                end += 1;
            }
            let name = String::from_str(str.substring_char(pos, end));
            proof {
                lemma_word_end(s, pos as int, end as int);
                assert(word_end(s, end as int) == end);
                assert forall|k: int| pos + 1 <= k < end implies !starts_token(s, k) by {
                    assert(is_letter(s[k - 1]));
                }
                lemma_no_token_starts(s, pos + 1, end as int);
                assert(starts_token(s, pos as int));
            }
            tokens.push(Token::Variable(pos, name));
            proof {
                assert(views(tokens@) == before.push(token_at(s, pos as int)));
            }
            pos = end;
        } else if c == '=' && pos + 1 < n && chars[pos + 1] == '>' {
            proof {
                reveal_strlit("=>");
                assert("=>"@ == seq!['=', '>']);
                assert(!starts_token(s, pos + 1));
                assert(valid_at(s, pos + 1));
            }
            tokens.push(Token::Operator(pos, String::from_str("=>")));
            proof {
                assert(views(tokens@) == before.push(token_at(s, pos as int)));
                assert(tokens_before(s, pos + 2) == tokens_before(s, pos + 1));
            }
            pos += 2;
        } else if c == '0' || c == '1' {
            tokens.push(Token::Value(pos, c == '1'));
            proof {
                assert(views(tokens@) == before.push(token_at(s, pos as int)));
            }
            pos += 1;
        } else if c == '&' || c == '|' || c == '^' || c == '=' || c == '!' {
            let name = String::from_str(str.substring_char(pos, pos + 1));
            proof {
                assert(name@ == seq![c]);
            }
            tokens.push(Token::Operator(pos, name));
            proof {
                assert(views(tokens@) == before.push(token_at(s, pos as int)));
            }
            pos += 1;
        } else if c == '(' {
            tokens.push(Token::OpenParanthesis(pos));
            proof {
                assert(views(tokens@) == before.push(token_at(s, pos as int)));
            }
            pos += 1;
        } else if c == ')' {
            tokens.push(Token::CloseParanthesis(pos));
            proof {
                assert(views(tokens@) == before.push(token_at(s, pos as int)));
            }
            pos += 1;
        } else {
            let message = String::from_str("Invalid character '").concat(
                str.substring_char(pos, pos + 1),
            ).concat("'");
            proof {
                assert(!valid_at(s, pos as int));
                lemma_first_invalid(s, 0, pos as int);
                assert(str@.subrange(pos as int, pos + 1) == seq![c]);
            }
            return Err(ParseError { pos, len: 1, message });
        }
    }
    proof {
        lemma_first_invalid(s, 0, n as int);
    }
    if tokens.len() == 0 {
        return Err(ParseError { message: String::from_str("no input."), pos: n, len: 0 });
    }
    Ok(tokens)
}

} // verus!
