//! Macro definitions: the parser that builds them from tokens, and the
//! substitution of arguments into their bodies.
use vstd::prelude::*;

use crate::crawler::{token_views, Token, TokenView};

verus! {

/// Why a definition could not be built; each carries the index of the
/// offending token (the token count where the input ended too early).
#[derive(Debug, Clone, Copy, PartialEq, Eq, Structural)]
pub enum ExpansionBuildError {
    MissingParentheses(usize),
    MissingDollar(usize),
    MissingName(usize),
    MissingClosingParentheses(usize),
    DuplicateParameter(usize),
}

impl ExpansionBuildError {
    /// The index of the offending token.
    pub open spec fn spec_index(self) -> usize {
        match self {
            ExpansionBuildError::MissingParentheses(i) => i,
            ExpansionBuildError::MissingDollar(i) => i,
            ExpansionBuildError::MissingName(i) => i,
            ExpansionBuildError::MissingClosingParentheses(i) => i,
            ExpansionBuildError::DuplicateParameter(i) => i,
        }
    }

    /// The index of the offending token.
    pub fn index(&self) -> (r: usize)
        ensures
            r == self.spec_index(),
    {
        match self {
            ExpansionBuildError::MissingParentheses(i) => *i,
            ExpansionBuildError::MissingDollar(i) => *i,
            ExpansionBuildError::MissingName(i) => *i,
            ExpansionBuildError::MissingClosingParentheses(i) => *i,
            ExpansionBuildError::DuplicateParameter(i) => *i,
        }
    }
}

/// The mathematical value of a macro definition.
pub struct ExpansionView {
    pub name: Seq<char>,
    pub params: Seq<Seq<char>>,
    pub body: Seq<TokenView>,
}

/// The parameter list from index `i` on, where `i` is just past `{` or `,`;
/// `acc` holds the parameters read before. On success also the index just
/// past the closing `}`.
pub open spec fn parse_params(ts: Seq<TokenView>, i: int, acc: Seq<Seq<char>>) -> Result<
    (Seq<Seq<char>>, int),
    ExpansionBuildError,
>
    decreases ts.len() - i,
{
    if i < 0 || i >= ts.len() {
        Err(ExpansionBuildError::MissingClosingParentheses(i as usize))
    } else if !(ts[i] is Dollar) {
        Err(ExpansionBuildError::MissingDollar(i as usize))
    } else if i + 1 >= ts.len() {
        Err(ExpansionBuildError::MissingClosingParentheses((i + 1) as usize))
    } else {
        match ts[i + 1] {
            TokenView::Literal(w) => {
                if acc.contains(w) {
                    Err(ExpansionBuildError::DuplicateParameter((i + 1) as usize))
                } else if i + 2 >= ts.len() {
                    Err(ExpansionBuildError::MissingClosingParentheses((i + 2) as usize))
                } else if ts[i + 2] is Comma {
                    parse_params(ts, i + 3, acc.push(w))
                } else if ts[i + 2] is CloseParentheses {
                    Ok((acc.push(w), i + 3))
                } else {
                    Err(ExpansionBuildError::MissingClosingParentheses((i + 2) as usize))
                }
            },
            _ => Err(ExpansionBuildError::MissingName((i + 1) as usize)),
        }
    }
}

/// The index of the `}` that closes a block, scanning from `i` with `depth`
/// blocks open; `None` when the tokens end first.
pub open spec fn block_end(ts: Seq<TokenView>, i: int, depth: nat) -> Option<int>
    decreases ts.len() - i,
{
    if i < 0 || i >= ts.len() {
        None
    } else if ts[i] is CloseParentheses {
        if depth <= 1 {
            Some(i)
        } else {
            block_end(ts, i + 1, (depth - 1) as nat)
        }
    } else if ts[i] is OpenParentheses {
        block_end(ts, i + 1, depth + 1)
    } else {
        block_end(ts, i + 1, depth)
    }
}

/// The parameters of a definition and the index just past their block.
pub open spec fn parse_param_block(ts: Seq<TokenView>) -> Result<
    (Seq<Seq<char>>, int),
    ExpansionBuildError,
> {
    if ts.len() > 3 && ts[3] is CloseParentheses {
        Ok((seq![], 4))
    } else {
        parse_params(ts, 3, seq![])
    }
}

/// The definition `$NAME{ $PARAM, ... }{ BODY }` that the tokens spell, or the
/// first deviation from that grammar.
pub open spec fn parse_definition(ts: Seq<TokenView>) -> Result<ExpansionView, ExpansionBuildError> {
    if ts.len() < 1 || !(ts[0] is Dollar) {
        Err(ExpansionBuildError::MissingDollar(0))
    } else if ts.len() < 2 || !(ts[1] is Literal) {
        Err(ExpansionBuildError::MissingName(1))
    } else if ts.len() < 3 || !(ts[2] is OpenParentheses) {
        Err(ExpansionBuildError::MissingParentheses(2))
    } else {
        match parse_param_block(ts) {
            Err(e) => Err(e),
            Ok((ps, k)) => {
                if k >= ts.len() || !(ts[k] is OpenParentheses) {
                    Err(ExpansionBuildError::MissingParentheses(k as usize))
                } else {
                    match block_end(ts, k + 1, 1) {
                        None => Err(ExpansionBuildError::MissingClosingParentheses(ts.len() as usize)),
                        Some(m) => {
                            if m + 1 != ts.len() {
                                Err(ExpansionBuildError::MissingParentheses((m + 1) as usize))
                            } else {
                                Ok(
                                    ExpansionView {
                                        name: ts[1]->Literal_0,
                                        params: ps,
                                        body: ts.subrange(k + 1, m),
                                    },
                                )
                            }
                        },
                    }
                }
            },
        }
    }
}

/// Whether body index `j` is a reference `$name`: the literal `name` right
/// after a `$`.
pub open spec fn is_reference(body: Seq<TokenView>, j: int, name: Seq<char>) -> bool {
    &&& 1 <= j < body.len()
    &&& body[j - 1] is Dollar
    &&& body[j] == TokenView::Literal(name)
}

/// The body indices below `k` that reference `name`, in increasing order.
pub open spec fn references(body: Seq<TokenView>, name: Seq<char>, k: int) -> Seq<int>
    decreases k,
{
    if k <= 0 {
        seq![]
    } else if is_reference(body, k - 1, name) {
        references(body, name, k - 1).push(k - 1)
    } else {
        references(body, name, k - 1)
    }
}

/// The values of a sequence of strings.
pub open spec fn string_views(ss: Seq<String>) -> Seq<Seq<char>> {
    ss.map_values(|s: String| s@)
}

/// Whether `w` is one of `ss`.
fn contains_string(ss: &Vec<String>, w: &String) -> (r: bool)
    ensures
        r == string_views(ss@).contains(w@),
{
    let mut i: usize = 0;
    while i < ss.len()
        invariant
            i <= ss.len(),
            forall|k: int| 0 <= k < i ==> ss@[k]@ != w@,
        decreases ss.len() - i,
    {
        if ss[i] == *w {
            assert(string_views(ss@)[i as int] == w@);
            return true;
        }
        i = i + 1;
    }
    proof {
        if string_views(ss@).contains(w@) {
            let k = choose|k: int| 0 <= k < string_views(ss@).len() && string_views(ss@)[k] == w@;
            assert(ss@[k]@ == w@);
        }
    }
    false
}

/// The index of the `}` that closes the block opened just before `i`.
pub(crate) fn find_block_end(ts: &Vec<Token>, i: usize) -> (r: Option<usize>)
    ensures
        match r {
            Some(m) => i <= m < ts.len() && block_end(token_views(ts@), i as int, 1) == Some(
                m as int,
            ),
            None => block_end(token_views(ts@), i as int, 1) is None,
        },
{
    let ghost v = token_views(ts@);
    let mut j: usize = i;
    // blocks open beyond the first
    let mut extra: usize = 0;
    while j < ts.len()
        invariant
            i <= j,
            extra <= j - i,
            block_end(v, i as int, 1) == block_end(v, j as int, (extra + 1) as nat),
            v == token_views(ts@),
        decreases ts.len() - j,
    {
        match &ts[j] {
            Token::CloseParentheses => {
                if extra == 0 {
                    return Some(j);
                }
                extra = extra - 1;
            },
            Token::OpenParentheses => {
                extra = extra + 1;
            },
            _ => {},
        }
        j = j + 1;
    }
    None
}

proof fn lemma_token_views_push(s: Seq<Token>, t: Token)
    ensures
        token_views(s.push(t)) == token_views(s).push(t@),
{
    assert(token_views(s.push(t)) =~= token_views(s).push(t@));
}

/// A copy of the tokens at indices `a..b`.
fn copy_range(ts: &Vec<Token>, a: usize, b: usize) -> (r: Vec<Token>)
    requires
        a <= b <= ts.len(),
    ensures
        token_views(r@) == token_views(ts@).subrange(a as int, b as int),
{
    let mut r: Vec<Token> = Vec::new();
    let mut j: usize = a;
    while j < b
        invariant
            a <= j <= b <= ts.len(),
            token_views(r@) == token_views(ts@).subrange(a as int, j as int),
        decreases b - j,
    {
        let t = ts[j].duplicate();
        proof {
            lemma_token_views_push(r@, t);
        }
        r.push(t);
        j = j + 1;
        assert(token_views(r@) =~= token_views(ts@).subrange(a as int, j as int));
    }
    r
}

/// The body indices that reference `name`, in increasing order.
fn reference_positions(body: &Vec<Token>, name: &String) -> (r: Vec<usize>)
    ensures
        r@.map_values(|j: usize| j as int) == references(
            token_views(body@),
            name@,
            body.len() as int,
        ),
{
    let ghost v = token_views(body@);
    let mut r: Vec<usize> = Vec::new();
    let mut j: usize = 1;
    if body.len() == 0 {
        return r;
    }
    assert(references(v, name@, 0) == Seq::<int>::empty());
    assert(r@.map_values(|j: usize| j as int) =~= references(v, name@, 1));
    while j < body.len()
        invariant
            1 <= j <= body.len(),
            v == token_views(body@),
            r@.map_values(|j: usize| j as int) == references(v, name@, j as int),
        decreases body.len() - j,
    {
        let hit = match (&body[j - 1], &body[j]) {
            (Token::Dollar, Token::Literal(w)) => *w == *name,
            _ => false,
        };
        assert(hit == is_reference(v, j as int, name@));
        if hit {
            r.push(j);
        }
        j = j + 1;
        assert(r@.map_values(|j: usize| j as int) =~= references(v, name@, j as int));
    }
    r
}

/// A parsed macro definition with its substitution map.
#[derive(Debug)]
pub struct Expansion {
    name: String,
    params: Vec<String>,
    body: Vec<Token>,
    subst: Vec<Vec<usize>>,
}

impl View for Expansion {
    type V = ExpansionView;

    closed spec fn view(&self) -> ExpansionView {
        ExpansionView {
            name: self.name@,
            params: self.params@.map_values(|s: String| s@),
            body: token_views(self.body@),
        }
    }
}

impl Expansion {
    /// The substitution map: for each parameter, the body indices of its references.
    pub closed spec fn substitution_map(&self) -> Seq<Seq<int>> {
        self.subst@.map_values(|v: Vec<usize>| v@.map_values(|j: usize| j as int))
    }

    /// Parameters are unique, and the substitution map lists, for each
    /// parameter, exactly the body indices that reference it, in order.
    pub open spec fn wf(&self) -> bool {
        &&& self@.params.no_duplicates()
        &&& self.substitution_map().len() == self@.params.len()
        &&& forall|p: int|
            0 <= p < self@.params.len() ==> #[trigger] self.substitution_map()[p] == references(
                self@.body,
                self@.params[p],
                self@.body.len() as int,
            )
    }
}

impl Expansion {
    /// Parses a definition `$NAME{ $PARAM, ... }{ BODY }` from its tokens and
    /// derives its substitution map.
    pub fn build(expansion_build_tokens: Vec<Token>) -> (r: Result<Self, ExpansionBuildError>)
        ensures
            match r {
                Ok(e) => e.wf() && parse_definition(token_views(expansion_build_tokens@)) == Ok::<
                    ExpansionView,
                    ExpansionBuildError,
                >(e@),
                Err(err) => parse_definition(token_views(expansion_build_tokens@)) == Err::<
                    ExpansionView,
                    ExpansionBuildError,
                >(err),
            },
    {
        let ts = &expansion_build_tokens;
        let ghost v = token_views(ts@);
        let n = ts.len();
        if n < 1 || !matches!(ts[0], Token::Dollar) {
            return Err(ExpansionBuildError::MissingDollar(0));
        }
        if n < 2 {
            return Err(ExpansionBuildError::MissingName(1));
        }
        let name = match &ts[1] {
            Token::Literal(s) => s.clone(),
            _ => {
                return Err(ExpansionBuildError::MissingName(1));
            },
        };
        if n < 3 || !matches!(ts[2], Token::OpenParentheses) {
            return Err(ExpansionBuildError::MissingParentheses(2));
        }
        let mut params: Vec<String> = Vec::new();
        let mut k: usize = 4;
        assert(string_views(params@) =~= Seq::<Seq<char>>::empty());
        if !(n > 3 && matches!(ts[3], Token::CloseParentheses)) {
            let mut i: usize = 3;
            loop
                invariant_except_break
                    parse_param_block(v) == parse_params(v, i as int, string_views(params@)),
                invariant
                    3 <= i,
                    n == ts.len(),
                    v == token_views(ts@),
                    v == token_views(expansion_build_tokens@),
                    v.len() == n >= 3,
                    v[0] is Dollar,
                    v[1] == TokenView::Literal(name@),
                    v[2] is OpenParentheses,
                    !(n > 3 && v[3] is CloseParentheses),
                    string_views(params@).no_duplicates(),
                ensures
                    parse_param_block(v) == Ok::<(Seq<Seq<char>>, int), ExpansionBuildError>(
                        (string_views(params@), k as int),
                    ),
                    string_views(params@).no_duplicates(),
                decreases n - i,
            {
                if i >= n {
                    return Err(ExpansionBuildError::MissingClosingParentheses(i));
                }
                if !matches!(ts[i], Token::Dollar) {
                    return Err(ExpansionBuildError::MissingDollar(i));
                }
                if i + 1 >= n {
                    return Err(ExpansionBuildError::MissingClosingParentheses(i + 1));
                }
                let w = match &ts[i + 1] {
                    Token::Literal(w) => w,
                    _ => {
                        return Err(ExpansionBuildError::MissingName(i + 1));
                    },
                };
                if contains_string(&params, w) {
                    return Err(ExpansionBuildError::DuplicateParameter(i + 1));
                }
                if i + 2 >= n {
                    return Err(ExpansionBuildError::MissingClosingParentheses(i + 2));
                }
                let more = matches!(ts[i + 2], Token::Comma);
                if !more && !matches!(ts[i + 2], Token::CloseParentheses) {
                    return Err(ExpansionBuildError::MissingClosingParentheses(i + 2));
                }
                let ghost before = params@;
                proof {
                    lemma_push_fresh(string_views(before), w@);
                }
                params.push(w.clone());
                assert(string_views(params@) =~= string_views(before).push(w@));
                i = i + 3;
                if !more {
                    k = i;
                    break;
                }
            }
        }
        assert(parse_param_block(v) == Ok::<(Seq<Seq<char>>, int), ExpansionBuildError>(
            (string_views(params@), k as int),
        ));
        if k >= n || !matches!(ts[k], Token::OpenParentheses) {
            return Err(ExpansionBuildError::MissingParentheses(k));
        }
        let m = match find_block_end(ts, k + 1) {
            None => {
                return Err(ExpansionBuildError::MissingClosingParentheses(n));
            },
            Some(m) => m,
        };
        if m + 1 != n {
            return Err(ExpansionBuildError::MissingParentheses(m + 1));
        }
        let body = copy_range(ts, k + 1, m);
        let mut subst: Vec<Vec<usize>> = Vec::new();
        let mut p: usize = 0;
        while p < params.len()
            invariant
                p <= params.len(),
                subst@.len() == p,
                forall|q: int|
                    0 <= q < p ==> (#[trigger] subst@[q])@.map_values(|j: usize| j as int)
                        == references(token_views(body@), params@[q]@, body.len() as int),
            decreases params.len() - p,
        {
            subst.push(reference_positions(&body, &params[p]));
            p = p + 1;
        }
        let e = Expansion { name, params, body, subst };
        assert(e.substitution_map().len() == e@.params.len());
        assert forall|q: int| 0 <= q < e@.params.len() implies #[trigger] e.substitution_map()[q]
            == references(e@.body, e@.params[q], e@.body.len() as int) by {
            assert(e.substitution_map()[q] == e.subst@[q]@.map_values(|j: usize| j as int));
        }
        Ok(e)
    }
}

proof fn lemma_push_fresh(s: Seq<Seq<char>>, w: Seq<char>)
    requires
        s.no_duplicates(),
        !s.contains(w),
    ensures
        s.push(w).no_duplicates(),
{
    assert forall|a: int, b: int| 0 <= a < b < s.push(w).len() implies s.push(w)[a] != s.push(
        w,
    )[b] by {
        if b == s.len() {
            assert(s.contains(s[a]));
        }
    }
}

/// Why a query could not be expanded; each carries the index of the
/// offending query token.
#[derive(Debug, Clone, Copy, PartialEq, Eq, Structural)]
pub enum QueryError {
    UnknownReference(usize),
    MissingParentheses(usize),
    ArgumentCountMismatch(usize),
    UnbalancedBraces(usize),
}

impl QueryError {
    /// The index of the offending query token.
    pub open spec fn spec_index(self) -> usize {
        match self {
            QueryError::UnknownReference(i) => i,
            QueryError::MissingParentheses(i) => i,
            QueryError::ArgumentCountMismatch(i) => i,
            QueryError::UnbalancedBraces(i) => i,
        }
    }

    /// The index of the offending query token.
    pub fn index(&self) -> (r: usize)
        ensures
            r == self.spec_index(),
    {
        match self {
            QueryError::UnknownReference(i) => *i,
            QueryError::MissingParentheses(i) => *i,
            QueryError::ArgumentCountMismatch(i) => *i,
            QueryError::UnbalancedBraces(i) => *i,
        }
    }
}

/// The positional arguments of an argument span: the texts of its literals,
/// in order; every other token only separates them.
pub open spec fn arguments(span: Seq<TokenView>) -> Seq<Seq<char>>
    decreases span.len(),
{
    if span.len() == 0 {
        seq![]
    } else {
        let rest = arguments(span.drop_last());
        match span.last() {
            TokenView::Literal(w) => rest.push(w),
            _ => rest,
        }
    }
}

/// The argument bound to parameter `w`: the one at the position of its first
/// occurrence in `params`.
pub open spec fn lookup_arg(params: Seq<Seq<char>>, args: Seq<Seq<char>>, w: Seq<char>) -> Option<
    Seq<char>,
>
    decreases params.len(),
{
    if params.len() == 0 || args.len() == 0 {
        None
    } else if params[0] == w {
        Some(args[0])
    } else {
        lookup_arg(params.drop_first(), args.drop_first(), w)
    }
}

/// The argument that replaces body token `j`, when it is a reference `$P` to a
/// parameter `P`.
pub open spec fn binding(d: ExpansionView, args: Seq<Seq<char>>, j: int) -> Option<Seq<char>> {
    if 1 <= j < d.body.len() && d.body[j - 1] is Dollar && d.body[j] is Literal {
        lookup_arg(d.params, args, d.body[j]->Literal_0)
    } else {
        None
    }
}

/// What body token `j` becomes: a bound reference becomes its argument, the
/// `$` before it disappears, any other token stays.
pub open spec fn piece(d: ExpansionView, args: Seq<Seq<char>>, j: int) -> Seq<TokenView> {
    match binding(d, args, j) {
        Some(a) => seq![TokenView::Literal(a)],
        None => if binding(d, args, j + 1) is Some {
            seq![]
        } else {
            seq![d.body[j]]
        },
    }
}

/// The expansion of the first `k` body tokens.
pub open spec fn expand_upto(d: ExpansionView, args: Seq<Seq<char>>, k: int) -> Seq<TokenView>
    decreases k,
{
    if k <= 0 {
        seq![]
    } else {
        expand_upto(d, args, k - 1) + piece(d, args, k - 1)
    }
}

/// The body of `d` with each parameter reference replaced by its argument.
pub open spec fn expand_body(d: ExpansionView, args: Seq<Seq<char>>) -> Seq<TokenView> {
    expand_upto(d, args, d.body.len() as int)
}

/// The expansion of `d` for the argument span `span`, whose opening `{` is
/// query token `at`.
pub open spec fn instantiate(d: ExpansionView, span: Seq<TokenView>, at: int) -> Result<
    Seq<TokenView>,
    QueryError,
> {
    if arguments(span).len() != d.params.len() {
        Err(QueryError::ArgumentCountMismatch(at as usize))
    } else {
        Ok(expand_body(d, arguments(span)))
    }
}

proof fn lemma_references(body: Seq<TokenView>, name: Seq<char>, k: int)
    requires
        0 <= k <= body.len(),
    ensures
        forall|t: int|
            0 <= t < references(body, name, k).len() ==> is_reference(
                body,
                #[trigger] references(body, name, k)[t],
                name,
            ),
        forall|j: int| 0 <= j < k && is_reference(body, j, name) ==> references(body, name, k).contains(j),
    decreases k,
{
    if k > 0 {
        lemma_references(body, name, k - 1);
        let r = references(body, name, k);
        let r0 = references(body, name, k - 1);
        assert forall|j: int| 0 <= j < k && is_reference(body, j, name) implies r.contains(j) by {
            if j < k - 1 {
                let t = choose|t: int| 0 <= t < r0.len() && r0[t] == j;
                assert(r[t] == j);
            } else {
                assert(r[r.len() - 1] == j);
            }
        }
    }
}

proof fn lemma_lookup_present(params: Seq<Seq<char>>, args: Seq<Seq<char>>, p: int)
    requires
        params.no_duplicates(),
        args.len() == params.len(),
        0 <= p < params.len(),
    ensures
        lookup_arg(params, args, params[p]) == Some(args[p]),
    decreases p,
{
    if p > 0 {
        assert(params[0] != params[p]);
        assert(params.drop_first()[p - 1] == params[p]);
        lemma_lookup_present(params.drop_first(), args.drop_first(), p - 1);
    }
}

proof fn lemma_lookup_absent(params: Seq<Seq<char>>, args: Seq<Seq<char>>, w: Seq<char>)
    requires
        !params.contains(w),
    ensures
        lookup_arg(params, args, w) is None,
    decreases params.len(),
{
    if params.len() > 0 && args.len() > 0 {
        assert(params[0] != w);
        assert forall|t: int| 0 <= t < params.drop_first().len() implies params.drop_first()[t] != w by {
            assert(params[t + 1] == params.drop_first()[t]);
        }
        lemma_lookup_absent(params.drop_first(), args.drop_first(), w);
    }
}

impl Expansion {
    /// The name this macro is registered under.
    pub fn name(&self) -> (r: &String)
        ensures
            r@ == self@.name,
    {
        &self.name
    }

    /// Expands this macro for the argument span strictly between query tokens
    /// `open` (its `{`) and `close` (its `}`).
    pub fn query(&self, query_tokens: &Vec<Token>, open: usize, close: usize) -> (r: Result<
        Vec<Token>,
        QueryError,
    >)
        requires
            self.wf(),
            open < close <= query_tokens.len(),
        ensures
            match r {
                Ok(out) => instantiate(
                    self@,
                    token_views(query_tokens@).subrange(open + 1, close as int),
                    open as int,
                ) == Ok::<Seq<TokenView>, QueryError>(token_views(out@)),
                Err(e) => instantiate(
                    self@,
                    token_views(query_tokens@).subrange(open + 1, close as int),
                    open as int,
                ) == Err::<Seq<TokenView>, QueryError>(e),
            },
    {
        let ghost v = token_views(query_tokens@);
        let ghost d = self@;
        let mut args: Vec<String> = Vec::new();
        let mut j: usize = open + 1;
        assert(v.subrange(open + 1, j as int) =~= Seq::<TokenView>::empty());
        while j < close
            invariant
                open < j <= close <= query_tokens.len(),
                v == token_views(query_tokens@),
                string_views(args@) == arguments(v.subrange(open + 1, j as int)),
            decreases close - j,
        {
            assert(v.subrange(open + 1, j + 1).drop_last() =~= v.subrange(open + 1, j as int));
            if let Token::Literal(w) = &query_tokens[j] {
                args.push(w.clone());
            }
            j = j + 1;
            assert(string_views(args@) =~= arguments(v.subrange(open + 1, j as int)));
        }
        let ghost a = string_views(args@);
        if args.len() != self.params.len() {
            return Err(QueryError::ArgumentCountMismatch(open));
        }
        let n = self.body.len();
        let np = self.params.len();
        // slots[j] is the parameter that body token j references, if any
        let mut slots: Vec<Option<usize>> = Vec::new();
        while slots.len() < n
            invariant
                slots@.len() <= n,
                forall|t: int| 0 <= t < slots@.len() ==> #[trigger] slots@[t] is None,
            decreases n - slots.len(),
        {
            slots.push(None);
        }
        let mut p: usize = 0;
        while p < np
            invariant
                self.wf(),
                d == self@,
                n == d.body.len(),
                np == d.params.len(),
                p <= np,
                slots@.len() == n,
                forall|t: int|
                    0 <= t < n ==> match #[trigger] slots@[t] {
                        Some(q) => q < p && is_reference(d.body, t, d.params[q as int]),
                        None => forall|q: int| 0 <= q < p ==> !is_reference(d.body, t, d.params[q]),
                    },
            decreases np - p,
        {
            let list = &self.subst[p];
            proof {
                assert(self.substitution_map()[p as int] == list@.map_values(|x: usize| x as int));
                lemma_references(d.body, d.params[p as int], n as int);
            }
            let mut t: usize = 0;
            while t < list.len()
                invariant
                    self.wf(),
                    d == self@,
                    n == d.body.len(),
                    np == d.params.len(),
                    p < np,
                    list == self.subst@[p as int],
                    self.substitution_map()[p as int] == list@.map_values(|x: usize| x as int),
                    t <= list.len(),
                    slots@.len() == n,
                    forall|x: int|
                        0 <= x < references(d.body, d.params[p as int], n as int).len()
                            ==> is_reference(
                            d.body,
                            #[trigger] references(d.body, d.params[p as int], n as int)[x],
                            d.params[p as int],
                        ),
                    forall|x: int|
                        0 <= x < n ==> match #[trigger] slots@[x] {
                            Some(q) => q <= p && is_reference(d.body, x, d.params[q as int]),
                            None => (forall|q: int|
                                0 <= q < p ==> !is_reference(d.body, x, d.params[q])) && forall|
                                u: int,
                            |
                                0 <= u < t ==> list@[u] != x,
                        },
                decreases list.len() - t,
            {
                let x = list[t];
                assert(self.substitution_map()[p as int][t as int] == x as int);
                slots.set(x, Some(p));
                t = t + 1;
            }
            proof {
                assert forall|x: int| 0 <= x < n && #[trigger] slots@[x] is None implies !is_reference(
                    d.body,
                    x,
                    d.params[p as int],
                ) by {
                    if is_reference(d.body, x, d.params[p as int]) {
                        let refs = references(d.body, d.params[p as int], n as int);
                        assert(refs.contains(x));
                        let u = choose|u: int| 0 <= u < refs.len() && refs[u] == x;
                        assert(list@[u] == x);
                    }
                }
            }
            p = p + 1;
        }
        proof {
            assert forall|x: int| 0 <= x < n implies match #[trigger] slots@[x] {
                Some(q) => binding(d, a, x) == Some(a[q as int]),
                None => binding(d, a, x) is None,
            } by {
                match slots@[x] {
                    Some(q) => {
                        lemma_lookup_present(d.params, a, q as int);
                    },
                    None => {
                        if 1 <= x < n && d.body[x - 1] is Dollar && d.body[x] is Literal {
                            let w = d.body[x]->Literal_0;
                            if d.params.contains(w) {
                                let q = choose|q: int| 0 <= q < d.params.len() && d.params[q] == w;
                                assert(is_reference(d.body, x, d.params[q]));
                            }
                            lemma_lookup_absent(d.params, a, w);
                        }
                    },
                }
            }
        }
        let mut out: Vec<Token> = Vec::new();
        let mut k: usize = 0;
        while k < n
            invariant
                d == self@,
                n == d.body.len(),
                np == d.params.len() == args@.len(),
                a == string_views(args@),
                k <= n,
                slots@.len() == n,
                forall|x: int|
                    0 <= x < n ==> match #[trigger] slots@[x] {
                        Some(q) => q < np && binding(d, a, x) == Some(a[q as int]),
                        None => binding(d, a, x) is None,
                    },
                token_views(out@) == expand_upto(d, a, k as int),
            decreases n - k,
        {
            let ghost before = out@;
            match slots[k] {
                Some(q) => {
                    let t = Token::Literal(args[q].clone());
                    proof {
                        lemma_token_views_push(before, t);
                    }
                    out.push(t);
                },
                None => {
                    if k + 1 < n && slots[k + 1].is_some() {
                    } else {
                        let t = self.body[k].duplicate();
                        proof {
                            lemma_token_views_push(before, t);
                        }
                        out.push(t);
                    }
                },
            }
            k = k + 1;
            assert(token_views(out@) =~= expand_upto(d, a, k as int));
        }
        Ok(out)
    }
}

proof fn lemma_parse_params_unique(ts: Seq<TokenView>, i: int, acc: Seq<Seq<char>>)
    requires
        acc.no_duplicates(),
    ensures
        parse_params(ts, i, acc) matches Ok((ps, _)) ==> ps.no_duplicates(),
    decreases ts.len() - i,
{
    if 0 <= i && i + 2 < ts.len() && ts[i] is Dollar && ts[i + 1] is Literal {
        let w = ts[i + 1]->Literal_0;
        if !acc.contains(w) {
            lemma_push_fresh(acc, w);
            if ts[i + 2] is Comma {
                lemma_parse_params_unique(ts, i + 3, acc.push(w));
            }
        }
    }
}

/// The parameters of a parsed definition are pairwise different.
pub proof fn lemma_parsed_params_unique(ts: Seq<TokenView>)
    ensures
        parse_definition(ts) matches Ok(d) ==> d.params.no_duplicates(),
{
    lemma_parse_params_unique(ts, 3, seq![]);
}

/// For a parsed definition with N parameters and an argument span with exactly
/// N literals, the expansion succeeds, and every reference `$P` to the `p`-th
/// parameter, wherever and however often it occurs in the body, becomes the
/// text of the `p`-th argument, its `$` dropped.
pub proof fn lemma_references_expand_to_arguments(
    ts: Seq<TokenView>,
    d: ExpansionView,
    span: Seq<TokenView>,
    at: int,
)
    requires
        parse_definition(ts) == Ok::<ExpansionView, ExpansionBuildError>(d),
        arguments(span).len() == d.params.len(),
    ensures
        instantiate(d, span, at) == Ok::<Seq<TokenView>, QueryError>(
            expand_body(d, arguments(span)),
        ),
        forall|p: int, j: int|
            #![trigger is_reference(d.body, j, d.params[p])]
            0 <= p < d.params.len() && is_reference(d.body, j, d.params[p]) ==> {
                &&& piece(d, arguments(span), j) == seq![
                    TokenView::Literal(arguments(span)[p]),
                ]
                &&& piece(d, arguments(span), j - 1) == Seq::<TokenView>::empty()
            },
{
    lemma_parsed_params_unique(ts);
    let a = arguments(span);
    assert forall|p: int, j: int|
        #![trigger is_reference(d.body, j, d.params[p])]
        0 <= p < d.params.len() && is_reference(d.body, j, d.params[p]) implies {
        &&& piece(d, a, j) == seq![TokenView::Literal(a[p])]
        &&& piece(d, a, j - 1) == Seq::<TokenView>::empty()
    } by {
        lemma_lookup_present(d.params, a, p);
        assert(binding(d, a, j) == Some(a[p]));
        assert(binding(d, a, j - 1) is None);
    }
}

proof fn lemma_parse_params_prefix(ts: Seq<TokenView>, i: int, acc: Seq<Seq<char>>, k: int)
    requires
        0 <= k <= ts.len(),
        parse_params(ts, i, acc) is Ok,
    ensures
        parse_params(ts, i, acc)->Ok_0.1 <= k ==> parse_params(ts.take(k), i, acc) == parse_params(
            ts,
            i,
            acc,
        ),
        k < parse_params(ts, i, acc)->Ok_0.1 ==> parse_params(ts.take(k), i, acc) is Err,
    decreases ts.len() - i,
{
    let w = ts[i + 1]->Literal_0;
    if ts[i + 2] is Comma {
        lemma_parse_params_prefix(ts, i + 3, acc.push(w), k);
    }
}

proof fn lemma_block_end_prefix(ts: Seq<TokenView>, i: int, depth: nat, k: int)
    requires
        0 <= i,
        0 <= k <= ts.len(),
        block_end(ts, i, depth) matches Some(m) && k <= m,
    ensures
        block_end(ts.take(k), i, depth) is None,
    decreases ts.len() - i,
{
    if i < k {
        if ts[i] is CloseParentheses {
            if depth > 1 {
                lemma_block_end_prefix(ts, i + 1, (depth - 1) as nat, k);
            }
        } else if ts[i] is OpenParentheses {
            lemma_block_end_prefix(ts, i + 1, depth + 1, k);
        } else {
            lemma_block_end_prefix(ts, i + 1, depth, k);
        }
    }
}

/// Every proper prefix of the tokens of a valid definition, wherever it is
/// cut, is rejected with an error.
pub proof fn lemma_truncated_definition_rejected(ts: Seq<TokenView>, k: int)
    requires
        parse_definition(ts) is Ok,
        0 <= k < ts.len(),
    ensures
        parse_definition(ts.take(k)) is Err,
{
    let t = ts.take(k);
    if k >= 3 {
        let (ps, e) = parse_param_block(ts)->Ok_0;
        if ts.len() > 3 && ts[3] is CloseParentheses {
            if k == 3 {
                assert(parse_param_block(t) is Err);
            } else {
                assert(parse_param_block(t) == parse_param_block(ts));
            }
        } else {
            lemma_parse_params_prefix(ts, 3, seq![], k);
        }
        if e < k {
            assert(parse_param_block(t) == parse_param_block(ts));
            let m = block_end(ts, e + 1, 1)->Some_0;
            lemma_block_end_prefix(ts, e + 1, 1, k);
        }
    }
}

} // verus!
