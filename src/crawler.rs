//! Tokens of the query language and the tokenizer that produces them.
use vstd::prelude::*;
use vstd::utf8::{char_is_scalar, encode_scalar, encode_utf8};

verus! {

/// A token of definition or query text.
#[derive(Debug, Clone, PartialEq, Eq, Hash)]
pub enum Token {
    /// A maximal run of ASCII letters, digits and `_`.
    Literal(String),
    /// Any other single non-whitespace character, held as a one-character string.
    NonLiteral(String),
    /// `{`
    OpenParentheses,
    /// `}`
    CloseParentheses,
    /// `$`
    Dollar,
    /// `,`
    Comma,
    /// `:`
    Colon,
}

/// The mathematical value of a [`Token`].
pub enum TokenView {
    Literal(Seq<char>),
    NonLiteral(Seq<char>),
    OpenParentheses,
    CloseParentheses,
    Dollar,
    Comma,
    Colon,
}

impl View for Token {
    type V = TokenView;

    open spec fn view(&self) -> TokenView {
        match self {
            Token::Literal(s) => TokenView::Literal(s@),
            Token::NonLiteral(s) => TokenView::NonLiteral(s@),
            Token::OpenParentheses => TokenView::OpenParentheses,
            Token::CloseParentheses => TokenView::CloseParentheses,
            Token::Dollar => TokenView::Dollar,
            Token::Comma => TokenView::Comma,
            Token::Colon => TokenView::Colon,
        }
    }
}

/// The source text a token stands for.
pub open spec fn text(t: TokenView) -> Seq<char> {
    match t {
        TokenView::Literal(s) => s,
        TokenView::NonLiteral(s) => s,
        TokenView::OpenParentheses => seq!['{'],
        TokenView::CloseParentheses => seq!['}'],
        TokenView::Dollar => seq!['$'],
        TokenView::Comma => seq![','],
        TokenView::Colon => seq![':'],
    }
}

impl Token {
    /// The text this token stands for.
    pub fn as_str(&self) -> (r: &str)
        ensures
            r@ == text(self@),
    {
        proof {
            reveal_strlit("{");
            reveal_strlit("}");
            reveal_strlit("$");
            reveal_strlit(",");
            reveal_strlit(":");
        }
        match self {
            Token::Literal(s) => s.as_str(),
            Token::NonLiteral(c) => c.as_str(),
            Token::OpenParentheses => "{",
            Token::CloseParentheses => "}",
            Token::Dollar => "$",
            Token::Comma => ",",
            Token::Colon => ":",
        }
    }

    /// A copy of this token.
    pub fn duplicate(&self) -> (r: Token)
        ensures
            r@ == self@,
    {
        match self {
            Token::Literal(s) => Token::Literal(s.clone()),
            Token::NonLiteral(c) => Token::NonLiteral(c.clone()),
            Token::OpenParentheses => Token::OpenParentheses,
            Token::CloseParentheses => Token::CloseParentheses,
            Token::Dollar => Token::Dollar,
            Token::Comma => Token::Comma,
            Token::Colon => Token::Colon,
        }
    }
}

/// The characters of `s`, in order.
pub(crate) fn chars_of(s: &str) -> (r: Vec<char>)
    ensures
        r@ == s@,
{
    let mut r: Vec<char> = Vec::new();
    for c in it: s.chars()
        invariant
            r@ == it.seq().take(it.index() as int),
            it.seq() == s@,
    {
        r.push(c);
    }
    r
}

/// A byte range `start..end` of the text a token was read from.
#[derive(Debug, Clone, Copy, PartialEq, Eq)]
pub struct Span {
    pub start: usize,
    pub end: usize,
}

/// A token of the lexical model, with the character range it was read from.
pub struct Lexeme {
    pub token: TokenView,
    pub start: int,
    pub end: int,
}

/// ASCII letters, digits and `_`: the characters a literal is made of.
pub open spec fn is_word_char(c: char) -> bool {
    ('a' <= c && c <= 'z') || ('A' <= c && c <= 'Z') || ('0' <= c && c <= '9') || c == '_'
}

/// The Unicode `White_Space` characters, which separate tokens and are dropped.
pub open spec fn is_space(c: char) -> bool {
    let u = c as u32;
    ||| 0x9 <= u && u <= 0xD
    ||| u == 0x20
    ||| u == 0x85
    ||| u == 0xA0
    ||| u == 0x1680
    ||| 0x2000 <= u && u <= 0x200A
    ||| u == 0x2028
    ||| u == 0x2029
    ||| u == 0x202F
    ||| u == 0x205F
    ||| u == 0x3000
}

/// The token of a single character that is neither a word character nor whitespace.
pub open spec fn single(c: char) -> TokenView {
    if c == '{' {
        TokenView::OpenParentheses
    } else if c == '}' {
        TokenView::CloseParentheses
    } else if c == '$' {
        TokenView::Dollar
    } else if c == ',' {
        TokenView::Comma
    } else if c == ':' {
        TokenView::Colon
    } else {
        TokenView::NonLiteral(seq![c])
    }
}

/// The end of the run of word characters that starts at `i`.
pub open spec fn word_end(cs: Seq<char>, i: int) -> int
    decreases cs.len() - i,
{
    if 0 <= i < cs.len() && is_word_char(cs[i]) {
        word_end(cs, i + 1)
    } else {
        i
    }
}

/// The lexemes of `cs` from character index `i` on, left to right.
pub open spec fn lex_from(cs: Seq<char>, i: int) -> Seq<Lexeme>
    decreases cs.len() - i,
    via lex_from_decreases
{
    if i < 0 || i >= cs.len() {
        seq![]
    } else if is_word_char(cs[i]) {
        let j = word_end(cs, i);
        seq![Lexeme { token: TokenView::Literal(cs.subrange(i, j)), start: i, end: j }]
            + lex_from(cs, j)
    } else if is_space(cs[i]) {
        lex_from(cs, i + 1)
    } else {
        seq![Lexeme { token: single(cs[i]), start: i, end: i + 1 }] + lex_from(cs, i + 1)
    }
}

#[via_fn]
proof fn lex_from_decreases(cs: Seq<char>, i: int) {
    if 0 <= i < cs.len() && is_word_char(cs[i]) {
        lemma_word_end(cs, i + 1);
    }
}

/// The lexemes of the whole text.
pub open spec fn lexemes(cs: Seq<char>) -> Seq<Lexeme> {
    lex_from(cs, 0)
}

/// The tokens of the whole text.
pub open spec fn lex(cs: Seq<char>) -> Seq<TokenView> {
    lexemes(cs).map_values(|l: Lexeme| l.token)
}

/// The byte offset, in UTF-8, of character index `i` of `cs`.
pub open spec fn byte_offset(cs: Seq<char>, i: int) -> int {
    encode_utf8(cs.take(i)).len() as int
}

/// The values of a sequence of tokens.
pub open spec fn token_views(ts: Seq<Token>) -> Seq<TokenView> {
    ts.map_values(|t: Token| t@)
}

/// The concatenated text of a sequence of tokens.
pub open spec fn render(ts: Seq<TokenView>) -> Seq<char>
    decreases ts.len(),
{
    if ts.len() == 0 {
        seq![]
    } else {
        render(ts.drop_last()) + text(ts.last())
    }
}

proof fn lemma_word_end(cs: Seq<char>, i: int)
    requires
        0 <= i <= cs.len(),
    ensures
        i <= word_end(cs, i) <= cs.len(),
        forall|k: int| i <= k < word_end(cs, i) ==> is_word_char(#[trigger] cs[k]),
        word_end(cs, i) < cs.len() ==> !is_word_char(cs[word_end(cs, i)]),
    decreases cs.len() - i,
{
    if i < cs.len() && is_word_char(cs[i]) {
        lemma_word_end(cs, i + 1);
    }
}

proof fn lemma_lex_from_in_range(cs: Seq<char>, i: int)
    requires
        0 <= i,
    ensures
        forall|k: int|
            0 <= k < lex_from(cs, i).len() ==> i <= (#[trigger] lex_from(cs, i)[k]).start
                < lex_from(cs, i)[k].end <= cs.len(),
    decreases cs.len() - i,
{
    if i < cs.len() {
        if is_word_char(cs[i]) {
            lemma_word_end(cs, i);
            lemma_word_end(cs, i + 1);
            lemma_lex_from_in_range(cs, word_end(cs, i));
        } else {
            lemma_lex_from_in_range(cs, i + 1);
        }
    }
}

/// Every lexeme lies within the text.
pub proof fn lemma_lexemes_in_range(cs: Seq<char>)
    ensures
        forall|k: int|
            0 <= k < lexemes(cs).len() ==> 0 <= (#[trigger] lexemes(cs)[k]).start
                < lexemes(cs)[k].end <= cs.len(),
{
    lemma_lex_from_in_range(cs, 0);
}

proof fn lemma_encode_utf8_append(a: Seq<char>, b: Seq<char>)
    ensures
        encode_utf8(a + b) == encode_utf8(a) + encode_utf8(b),
    decreases a.len(),
{
    if a.len() == 0 {
        assert(a + b =~= b);
    } else {
        assert((a + b).drop_first() =~= a.drop_first() + b);
        lemma_encode_utf8_append(a.drop_first(), b);
    }
}

pub(crate) proof fn lemma_byte_offset_step(cs: Seq<char>, i: int)
    requires
        0 <= i < cs.len(),
    ensures
        byte_offset(cs, i + 1) == byte_offset(cs, i) + encode_scalar(cs[i] as u32).len(),
        byte_offset(cs, i + 1) <= byte_offset(cs, cs.len() as int),
{
    assert(cs.take(i + 1) =~= cs.take(i) + seq![cs[i]]);
    lemma_encode_utf8_append(cs.take(i), seq![cs[i]]);
    assert(seq![cs[i]].drop_first() =~= Seq::<char>::empty());
    assert(encode_utf8(seq![cs[i]]) =~= encode_scalar(cs[i] as u32) + encode_utf8(
        Seq::<char>::empty(),
    ));
    assert(cs.take(cs.len() as int) =~= cs.take(i + 1) + cs.skip(i + 1));
    lemma_encode_utf8_append(cs.take(i + 1), cs.skip(i + 1));
}

/// The number of bytes `c` takes in UTF-8.
pub(crate) fn utf8_width(c: char) -> (w: usize)
    ensures
        w == encode_scalar(c as u32).len(),
{
    proof {
        char_is_scalar(c);
    }
    let u = c as u32;
    if u <= 0x7F {
        1
    } else if u <= 0x7FF {
        2
    } else if u <= 0xFFFF {
        3
    } else {
        4
    }
}

/// Whether `c` is an ASCII letter, digit or `_`.
fn is_word(c: char) -> (r: bool)
    ensures
        r == is_word_char(c),
{
    ('a' <= c && c <= 'z') || ('A' <= c && c <= 'Z') || ('0' <= c && c <= '9') || c == '_'
}

/// Whether `c` is Unicode whitespace, as `char::is_whitespace` defines it.
fn is_whitespace(c: char) -> (r: bool)
    ensures
        r == is_space(c),
{
    let u = c as u32;
    (0x9 <= u && u <= 0xD) || u == 0x20 || u == 0x85 || u == 0xA0 || u == 0x1680 || (0x2000
        <= u && u <= 0x200A) || u == 0x2028 || u == 0x2029 || u == 0x202F || u == 0x205F || u
        == 0x3000
}

/// Relies on `String::push`: appends one character.
#[verifier::external_body]
pub(crate) fn push_char(s: &mut String, c: char)
    ensures
        final(s)@ == old(s)@.push(c),
{
    s.push(c)
}

/// The token of a character that is neither a word character nor whitespace.
fn single_token(c: char) -> (t: Token)
    ensures
        t@ == single(c),
{
    if c == '{' {
        Token::OpenParentheses
    } else if c == '}' {
        Token::CloseParentheses
    } else if c == '$' {
        Token::Dollar
    } else if c == ',' {
        Token::Comma
    } else if c == ':' {
        Token::Colon
    } else {
        let mut t = String::new();
        push_char(&mut t, c);
        assert(t@ =~= seq![c]);
        Token::NonLiteral(t)
    }
}

/// Splits `s` into tokens, each with the byte range of `s` it was read from.
pub fn tokenize_with_spans(s: &str) -> (r: (Vec<Token>, Vec<Span>))
    ensures
        token_views(r.0@) == lex(s@),
        r.1@.len() == lexemes(s@).len(),
        forall|k: int|
            0 <= k < r.1@.len() ==> r.1@[k].start == byte_offset(s@, #[trigger] lexemes(s@)[k].start)
                && r.1@[k].end == byte_offset(s@, lexemes(s@)[k].end),
{
    let cs = chars_of(s);
    let ghost g = s@;
    let total = s.as_bytes().len();
    let n = cs.len();
    let ghost all = lexemes(g);
    let mut toks: Vec<Token> = Vec::new();
    let mut spans: Vec<Span> = Vec::new();
    let ghost mut done: Seq<Lexeme> = seq![];
    let mut i: usize = 0;
    let mut byte: usize = 0;
    proof {
        assert(g.take(0) =~= Seq::<char>::empty());
        assert(g.take(n as int) =~= g);
    }
    while i < n
        invariant
            cs@ == g,
            n == g.len(),
            i <= n,
            all == done + lex_from(g, i as int),
            toks@.len() == done.len(),
            spans@.len() == done.len(),
            forall|k: int| 0 <= k < done.len() ==> (#[trigger] toks@[k])@ == done[k].token,
            forall|k: int|
                0 <= k < done.len() ==> (#[trigger] spans@[k]).start == byte_offset(g, done[k].start)
                    && spans@[k].end == byte_offset(g, done[k].end),
            byte == byte_offset(g, i as int),
            byte_offset(g, n as int) == total,
        decreases n - i,
    {
        let c = cs[i];
        let start = byte;
        if is_word(c) {
            let ghost i0 = i as int;
            proof {
                lemma_word_end(g, i0);
            }
            let mut word = String::new();
            while i < n && is_word(cs[i])
                invariant
                    cs@ == g,
                    n == g.len(),
                    i0 <= i <= word_end(g, i0),
                    word_end(g, i0) <= n,
                    word@ == g.subrange(i0, i as int),
                    byte == byte_offset(g, i as int),
                    byte_offset(g, n as int) == total,
                    forall|k: int| i0 <= k < word_end(g, i0) ==> is_word_char(#[trigger] g[k]),
                    word_end(g, i0) < g.len() ==> !is_word_char(g[word_end(g, i0)]),
                decreases n - i,
            {
                proof {
                    lemma_byte_offset_step(g, i as int);
                }
                push_char(&mut word, cs[i]);
                byte = byte + utf8_width(cs[i]);
                i = i + 1;
                assert(word@ =~= g.subrange(i0, i as int));
            }
            let ghost l = Lexeme { token: TokenView::Literal(g.subrange(i0, i as int)), start: i0, end: i as int };
            proof {
                assert(lex_from(g, i0) == seq![l] + lex_from(g, i as int));
                done = done.push(l);
            }
            toks.push(Token::Literal(word));
            spans.push(Span { start, end: byte });
        } else {
            proof {
                lemma_byte_offset_step(g, i as int);
            }
            byte = byte + utf8_width(c);
            if !is_whitespace(c) {
                let ghost l = Lexeme { token: single(c), start: i as int, end: i + 1 };
                proof {
                    done = done.push(l);
                }
                toks.push(single_token(c));
                spans.push(Span { start, end: byte });
            }
            i = i + 1;
        }
        assert(all == done + lex_from(g, i as int));
    }
    proof {
        assert(all =~= done);
        assert(token_views(toks@) =~= lex(g));
    }
    (toks, spans)
}

/// Splits `s` into tokens.
pub fn tokenize(s: &str) -> (r: Vec<Token>)
    ensures
        token_views(r@) == lex(s@),
{
    tokenize_with_spans(s).0
}

/// Relies on `String::push_str`: appends a string slice.
#[verifier::external_body]
pub(crate) fn push_str(s: &mut String, t: &str)
    ensures
        final(s)@ == old(s)@ + t@,
{
    s.push_str(t)
}

/// The concatenated text of `ts`.
pub fn render_tokens(ts: &Vec<Token>) -> (r: String)
    ensures
        r@ == render(token_views(ts@)),
{
    let mut r = String::new();
    let mut j: usize = 0;
    assert(token_views(ts@).take(0) =~= Seq::<TokenView>::empty());
    while j < ts.len()
        invariant
            j <= ts.len(),
            r@ == render(token_views(ts@).take(j as int)),
        decreases ts.len() - j,
    {
        push_str(&mut r, ts[j].as_str());
        assert(token_views(ts@).take(j + 1).drop_last() =~= token_views(ts@).take(j as int));
        j = j + 1;
    }
    assert(token_views(ts@).take(j as int) =~= token_views(ts@));
    r
}

/// A token as the tokenizer makes it: a literal is a non-empty run of word
/// characters; any other character stands alone.
pub open spec fn well_formed_token(t: TokenView) -> bool {
    match t {
        TokenView::Literal(w) => w.len() > 0 && forall|k: int|
            0 <= k < w.len() ==> is_word_char(#[trigger] w[k]),
        TokenView::NonLiteral(s) => s.len() == 1 && !is_word_char(s[0]) && !is_space(s[0])
            && single(s[0]) == TokenView::NonLiteral(s),
        _ => true,
    }
}

/// No literal is directly followed by another literal.
pub open spec fn no_adjacent_literals(ts: Seq<TokenView>) -> bool {
    forall|k: int| 0 <= k && k + 1 < ts.len() ==> !(#[trigger] ts[k] is Literal && ts[k + 1] is Literal)
}

proof fn lemma_render_append(a: Seq<TokenView>, b: Seq<TokenView>)
    ensures
        render(a + b) == render(a) + render(b),
    decreases b.len(),
{
    if b.len() == 0 {
        assert(a + b =~= a);
        assert(render(a) + render(b) =~= render(a));
    } else {
        assert((a + b).drop_last() =~= a + b.drop_last());
        assert((a + b).last() == b.last());
        lemma_render_append(a, b.drop_last());
        assert(render(a) + render(b.drop_last()) + text(b.last()) =~= render(a) + (render(
            b.drop_last(),
        ) + text(b.last())));
    }
}

pub(crate) proof fn lemma_render_front(ts: Seq<TokenView>)
    requires
        ts.len() > 0,
    ensures
        render(ts) == text(ts[0]) + render(ts.drop_first()),
{
    assert(ts =~= seq![ts[0]] + ts.drop_first());
    lemma_render_append(seq![ts[0]], ts.drop_first());
    assert(seq![ts[0]].drop_last() =~= Seq::<TokenView>::empty());
    assert(render(Seq::<TokenView>::empty()) == Seq::<char>::empty());
    assert(render(seq![ts[0]]) == render(Seq::<TokenView>::empty()) + text(ts[0]));
    assert(render(seq![ts[0]]) =~= text(ts[0]));
}

proof fn lemma_word_end_exact(cs: Seq<char>, i: int, j: int)
    requires
        0 <= i <= j <= cs.len(),
        forall|k: int| i <= k < j ==> is_word_char(#[trigger] cs[k]),
        j == cs.len() || !is_word_char(cs[j]),
    ensures
        word_end(cs, i) == j,
    decreases j - i,
{
    if i < j {
        lemma_word_end_exact(cs, i + 1, j);
    }
}

proof fn lemma_lex_well_formed(cs: Seq<char>, i: int)
    requires
        0 <= i,
    ensures
        forall|k: int|
            0 <= k < lex_from(cs, i).len() ==> well_formed_token(#[trigger] lex_from(cs, i)[k].token),
    decreases cs.len() - i,
{
    if i < cs.len() {
        if is_word_char(cs[i]) {
            lemma_word_end(cs, i);
            lemma_word_end(cs, i + 1);
            let j = word_end(cs, i);
            let w = cs.subrange(i, j);
            assert forall|k: int| 0 <= k < w.len() implies is_word_char(#[trigger] w[k]) by {
                assert(w[k] == cs[i + k]);
            }
            lemma_lex_well_formed(cs, j);
        } else {
            lemma_lex_well_formed(cs, i + 1);
        }
    }
}

/// The tokens that the lexemes from `i` on carry.
pub open spec fn lex_tokens_from(cs: Seq<char>, i: int) -> Seq<TokenView> {
    lex_from(cs, i).map_values(|l: Lexeme| l.token)
}

proof fn lemma_lex_rendered(pre: Seq<char>, ts: Seq<TokenView>)
    requires
        forall|k: int| 0 <= k < ts.len() ==> well_formed_token(#[trigger] ts[k]),
        no_adjacent_literals(ts),
    ensures
        lex_tokens_from(pre + render(ts), pre.len() as int) == ts,
    decreases ts.len(),
{
    let cs = pre + render(ts);
    let i = pre.len() as int;
    if ts.len() == 0 {
        assert(cs =~= pre);
        assert(lex_tokens_from(cs, i) =~= ts);
    } else {
        let t = ts[0];
        let rest = ts.drop_first();
        lemma_render_front(ts);
        let pre2 = pre + text(t);
        assert(cs =~= pre2 + render(rest));
        assert forall|k: int| 0 <= k < rest.len() implies well_formed_token(#[trigger] rest[k]) by {
            assert(rest[k] == ts[k + 1]);
        }
        assert forall|k: int| 0 <= k && k + 1 < rest.len() implies !(#[trigger] rest[k] is Literal
            && rest[k + 1] is Literal) by {
            assert(rest[k] == ts[k + 1] && rest[k + 1] == ts[k + 2]);
        }
        lemma_lex_rendered(pre2, rest);
        let j = pre2.len() as int;
        // the character after this token's text, if any, is not a word character
        if rest.len() > 0 {
            lemma_render_front(rest);
            assert(cs[j] == text(rest[0])[0]);
            assert(well_formed_token(ts[1]));
            assert(rest[0] == ts[1]);
            if t is Literal {
                assert(!(ts[0] is Literal && ts[1] is Literal));
            }
        }
        match t {
            TokenView::Literal(w) => {
                assert forall|k: int| i <= k < j implies is_word_char(#[trigger] cs[k]) by {
                    assert(cs[k] == w[k - i]);
                }
                lemma_word_end_exact(cs, i, j);
                assert(cs.subrange(i, j) =~= w);
            },
            _ => {
                assert(cs[i] == text(t)[0]);
            },
        }
        assert(lex_tokens_from(cs, i) =~= seq![t] + lex_tokens_from(cs, j));
    }
}

/// Tokenizing the rendered text of a text's tokens gives the same tokens back,
/// provided no two literals of the text were separated by whitespace alone
/// (rendering drops the whitespace, and such literals would merge).
pub proof fn lemma_retokenize(cs: Seq<char>)
    requires
        no_adjacent_literals(lex(cs)),
    ensures
        lex(render(lex(cs))) == lex(cs),
{
    let ts = lex(cs);
    lemma_lex_well_formed(cs, 0);
    assert forall|k: int| 0 <= k < ts.len() implies well_formed_token(#[trigger] ts[k]) by {
        assert(ts[k] == lex_from(cs, 0)[k].token);
    }
    lemma_lex_rendered(Seq::<char>::empty(), ts);
    assert(Seq::<char>::empty() + render(ts) =~= render(ts));
}

/// The text with its whitespace removed.
pub open spec fn without_spaces(cs: Seq<char>) -> Seq<char>
    decreases cs.len(),
{
    if cs.len() == 0 {
        seq![]
    } else if is_space(cs.last()) {
        without_spaces(cs.drop_last())
    } else {
        without_spaces(cs.drop_last()).push(cs.last())
    }
}

proof fn lemma_without_spaces_append(a: Seq<char>, b: Seq<char>)
    ensures
        without_spaces(a + b) == without_spaces(a) + without_spaces(b),
    decreases b.len(),
{
    if b.len() == 0 {
        assert(a + b =~= a);
        assert(without_spaces(a) + without_spaces(b) =~= without_spaces(a));
    } else {
        assert((a + b).drop_last() =~= a + b.drop_last());
        lemma_without_spaces_append(a, b.drop_last());
        assert(without_spaces(a) + without_spaces(b.drop_last()).push(b.last()) =~= (
        without_spaces(a) + without_spaces(b.drop_last())).push(b.last()));
    }
}

proof fn lemma_without_spaces_unchanged(cs: Seq<char>)
    requires
        forall|k: int| 0 <= k < cs.len() ==> !is_space(#[trigger] cs[k]),
    ensures
        without_spaces(cs) == cs,
    decreases cs.len(),
{
    if cs.len() > 0 {
        lemma_without_spaces_unchanged(cs.drop_last());
        assert(cs.drop_last().push(cs.last()) =~= cs);
    }
}

proof fn lemma_without_spaces_has_none(cs: Seq<char>)
    ensures
        forall|k: int|
            0 <= k < without_spaces(cs).len() ==> !is_space(#[trigger] without_spaces(cs)[k]),
    decreases cs.len(),
{
    if cs.len() > 0 {
        let w = without_spaces(cs.drop_last());
        lemma_without_spaces_has_none(cs.drop_last());
        assert forall|k: int|
            0 <= k < without_spaces(cs).len() implies !is_space(
            #[trigger] without_spaces(cs)[k],
        ) by {
            if k < w.len() {
                assert(without_spaces(cs)[k] == w[k]);
            }
        }
    }
}

proof fn lemma_render_lex_from(cs: Seq<char>, i: int)
    requires
        0 <= i <= cs.len(),
    ensures
        render(lex_tokens_from(cs, i)) == without_spaces(cs.subrange(i, cs.len() as int)),
    decreases cs.len() - i,
{
    let n = cs.len() as int;
    if i == n {
        assert(lex_tokens_from(cs, i) =~= Seq::<TokenView>::empty());
        assert(cs.subrange(i, n) =~= Seq::<char>::empty());
    } else {
        let j = if is_word_char(cs[i]) {
            word_end(cs, i)
        } else {
            i + 1
        };
        lemma_word_end(cs, i);
        lemma_word_end(cs, i + 1);
        lemma_render_lex_from(cs, j);
        assert(cs.subrange(i, n) =~= cs.subrange(i, j) + cs.subrange(j, n));
        lemma_without_spaces_append(cs.subrange(i, j), cs.subrange(j, n));
        let piece = cs.subrange(i, j);
        if is_word_char(cs[i]) || !is_space(cs[i]) {
            assert forall|k: int| 0 <= k < piece.len() implies !is_space(#[trigger] piece[k]) by {
                assert(piece[k] == cs[i + k]);
            }
            lemma_without_spaces_unchanged(piece);
            let t = lex_from(cs, i)[0].token;
            assert(lex_tokens_from(cs, i) =~= seq![t] + lex_tokens_from(cs, j));
            lemma_render_front(lex_tokens_from(cs, i));
            assert(seq![t].add(lex_tokens_from(cs, j)).drop_first() =~= lex_tokens_from(cs, j));
            assert(text(t) =~= piece);
        } else {
            assert(piece =~= seq![cs[i]]);
            assert(piece.drop_last() =~= Seq::<char>::empty());
            assert(piece.last() == cs[i]);
            assert(without_spaces(Seq::<char>::empty()) == Seq::<char>::empty());
            assert(without_spaces(piece) =~= Seq::<char>::empty());
            assert(lex_tokens_from(cs, i) =~= lex_tokens_from(cs, j));
            assert(Seq::<char>::empty() + without_spaces(cs.subrange(j, n)) =~= without_spaces(
                cs.subrange(j, n),
            ));
        }
    }
}

/// Rendering the tokens of a text gives the text with its whitespace removed.
pub proof fn lemma_render_lex_strips_whitespace(cs: Seq<char>)
    ensures
        render(lex(cs)) == without_spaces(cs),
{
    lemma_render_lex_from(cs, 0);
    assert(cs.subrange(0, cs.len() as int) =~= cs);
    assert(lex(cs) =~= lex_tokens_from(cs, 0));
}

/// Tokenizing and rendering is idempotent: doing it to its own output changes
/// nothing.
pub proof fn lemma_render_lex_idempotent(cs: Seq<char>)
    ensures
        render(lex(render(lex(cs)))) == render(lex(cs)),
{
    lemma_render_lex_strips_whitespace(cs);
    lemma_render_lex_strips_whitespace(without_spaces(cs));
    lemma_without_spaces_has_none(cs);
    lemma_without_spaces_unchanged(without_spaces(cs));
}

} // verus!
