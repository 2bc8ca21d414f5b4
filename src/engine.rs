//! The registry of macros and the expansion of queries against it.
use vstd::prelude::*;

use crate::crawler::{
    lemma_render_front, lex, push_str, render, render_tokens, text, token_views, tokenize, Token,
    TokenView,
};
use crate::expansion::{
    arguments, block_end, find_block_end, instantiate, parse_definition, Expansion, ExpansionBuildError,
    ExpansionView, QueryError,
};

verus! {

/// The registry that a sequence of definitions spells, a later one replacing
/// an earlier one of the same name.
pub open spec fn registry_of(es: Seq<Expansion>) -> Map<Seq<char>, ExpansionView>
    decreases es.len(),
{
    if es.len() == 0 {
        Map::empty()
    } else {
        registry_of(es.drop_last()).insert(es.last()@.name, es.last()@)
    }
}

/// The invocation of `d` whose name is query token `i`: its expanded text and
/// the index just past its argument span.
pub open spec fn invocation(qs: Seq<TokenView>, d: ExpansionView, i: int) -> Result<
    (Seq<char>, int),
    QueryError,
> {
    if i + 2 >= qs.len() || !(qs[i + 1] is Colon) || !(qs[i + 2] is OpenParentheses) {
        Err(QueryError::MissingParentheses((i + 1) as usize))
    } else {
        match block_end(qs, i + 3, 1) {
            None => Err(QueryError::UnbalancedBraces((i + 2) as usize)),
            Some(m) => match instantiate(d, qs.subrange(i + 3, m), i + 2) {
                Err(e) => Err(e),
                Ok(ts) => Ok((render(ts), m + 1)),
            },
        }
    }
}

/// Whether query token `i` names a registered macro.
pub open spec fn is_invocation(
    qs: Seq<TokenView>,
    reg: Map<Seq<char>, ExpansionView>,
    i: int,
) -> bool {
    0 <= i < qs.len() && qs[i] is Literal && reg.contains_key(qs[i]->Literal_0)
}

/// The invocation at query token `i`; `UnknownReference` when that token
/// names no registered macro.
pub open spec fn expand_invocation(
    qs: Seq<TokenView>,
    reg: Map<Seq<char>, ExpansionView>,
    i: int,
) -> Result<(Seq<char>, int), QueryError> {
    if is_invocation(qs, reg, i) {
        invocation(qs, reg[qs[i]->Literal_0], i)
    } else {
        Err(QueryError::UnknownReference(i as usize))
    }
}

/// `pre` followed by the text of `r`, or the error of `r`.
pub open spec fn prepend(pre: Seq<char>, r: Result<Seq<char>, QueryError>) -> Result<
    Seq<char>,
    QueryError,
> {
    match r {
        Ok(s) => Ok(pre + s),
        Err(e) => Err(e),
    }
}

/// The output for query tokens from `i` on: invocations expanded, every other
/// token passed through as its text; or the first error met.
pub open spec fn expand_from(qs: Seq<TokenView>, reg: Map<Seq<char>, ExpansionView>, i: int) -> Result<
    Seq<char>,
    QueryError,
>
    decreases qs.len() - i,
    via expand_from_decreases
{
    if i < 0 || i >= qs.len() {
        Ok(seq![])
    } else if is_invocation(qs, reg, i) {
        match expand_invocation(qs, reg, i) {
            Err(e) => Err(e),
            Ok((t, next)) => prepend(t, expand_from(qs, reg, next)),
        }
    } else {
        prepend(text(qs[i]), expand_from(qs, reg, i + 1))
    }
}

#[via_fn]
proof fn expand_from_decreases(qs: Seq<TokenView>, reg: Map<Seq<char>, ExpansionView>, i: int) {
    if 0 <= i < qs.len() && i + 3 <= qs.len() {
        lemma_block_end_range(qs, i + 3, 1);
    }
}

/// The expansion of a whole query text against a registry.
pub open spec fn expand_query(q: Seq<char>, reg: Map<Seq<char>, ExpansionView>) -> Result<
    Seq<char>,
    QueryError,
> {
    expand_from(lex(q), reg, 0)
}

proof fn lemma_block_end_range(ts: Seq<TokenView>, i: int, depth: nat)
    requires
        0 <= i,
    ensures
        block_end(ts, i, depth) matches Some(m) ==> i <= m < ts.len(),
    decreases ts.len() - i,
{
    if i < ts.len() {
        if ts[i] is CloseParentheses {
            if depth > 1 {
                lemma_block_end_range(ts, i + 1, (depth - 1) as nat);
            }
        } else if ts[i] is OpenParentheses {
            lemma_block_end_range(ts, i + 1, depth + 1);
        } else {
            lemma_block_end_range(ts, i + 1, depth);
        }
    }
}

/// Whether the definitions in `es` have pairwise different names.
pub open spec fn names_unique(es: Seq<Expansion>) -> bool {
    forall|i: int, j: int| 0 <= i < j < es.len() ==> es[i]@.name != es[j]@.name
}

proof fn lemma_registry(es: Seq<Expansion>)
    requires
        names_unique(es),
    ensures
        forall|k: Seq<char>|
            registry_of(es).contains_key(k) <==> exists|i: int|
                0 <= i < es.len() && (#[trigger] es[i])@.name == k,
        forall|i: int| 0 <= i < es.len() ==> registry_of(es)[(#[trigger] es[i])@.name] == es[i]@,
    decreases es.len(),
{
    if es.len() > 0 {
        let init = es.drop_last();
        assert(names_unique(init));
        lemma_registry(init);
        assert forall|k: Seq<char>|
            registry_of(es).contains_key(k) implies exists|i: int|
                0 <= i < es.len() && (#[trigger] es[i])@.name == k by {
            if k != es.last()@.name {
                assert(registry_of(init).contains_key(k));
                let i = choose|i: int| 0 <= i < init.len() && (#[trigger] init[i])@.name == k;
                assert(es[i] == init[i]);
            } else {
                assert(es[es.len() - 1]@.name == k);
            }
        }
        assert forall|k: Seq<char>|
            (exists|i: int| 0 <= i < es.len() && (#[trigger] es[i])@.name == k) implies registry_of(
            es,
        ).contains_key(k) by {
            let i = choose|i: int| 0 <= i < es.len() && (#[trigger] es[i])@.name == k;
            if i < es.len() - 1 {
                assert(init[i] == es[i]);
            }
        }
        assert forall|i: int| 0 <= i < es.len() implies registry_of(es)[(#[trigger] es[i])@.name]
            == es[i]@ by {
            if i < es.len() - 1 {
                assert(init[i] == es[i]);
            }
        }
    }
}

/// The registry of macros that queries are expanded against.
#[derive(Debug)]
pub struct ExpansionEngine {
    expansions: Vec<Expansion>,
}

impl View for ExpansionEngine {
    type V = Map<Seq<char>, ExpansionView>;

    closed spec fn view(&self) -> Map<Seq<char>, ExpansionView> {
        registry_of(self.expansions@)
    }
}

impl ExpansionEngine {
    /// Every stored definition is well formed and their names are unique.
    pub closed spec fn wf(&self) -> bool {
        &&& forall|i: int| 0 <= i < self.expansions@.len() ==> (#[trigger] self.expansions@[i]).wf()
        &&& names_unique(self.expansions@)
    }

    /// An engine with no macros.
    pub fn new() -> (r: Self)
        ensures
            r.wf(),
            r@ == Map::<Seq<char>, ExpansionView>::empty(),
    {
        ExpansionEngine { expansions: Vec::new() }
    }

    /// The index of the definition named `name`.
    fn find(&self, name: &String) -> (r: Option<usize>)
        requires
            self.wf(),
        ensures
            match r {
                Some(i) => i < self.expansions@.len() && self.expansions@[i as int]@.name == name@
                    && self@.contains_key(name@) && self@[name@] == self.expansions@[i as int]@,
                None => !self@.contains_key(name@),
            },
    {
        proof {
            lemma_registry(self.expansions@);
        }
        let mut i: usize = 0;
        while i < self.expansions.len()
            invariant
                self.wf(),
                i <= self.expansions.len(),
                forall|j: int| 0 <= j < i ==> (#[trigger] self.expansions@[j])@.name != name@,
            decreases self.expansions.len() - i,
        {
            if *self.expansions[i].name() == *name {
                proof {
                    lemma_registry(self.expansions@);
                }
                assert(self@[self.expansions@[i as int]@.name] == self.expansions@[i as int]@);
                return Some(i);
            }
            i = i + 1;
        }
        proof {
            lemma_registry(self.expansions@);
        }
        None
    }

    /// Parses a definition and registers it, replacing any macro of the same
    /// name; on an error the registry is left as it was.
    pub fn add_expansion(&mut self, expansion_build_str: &str) -> (r: Result<(), ExpansionBuildError>)
        requires
            old(self).wf(),
        ensures
            final(self).wf(),
            match parse_definition(lex(expansion_build_str@)) {
                Ok(d) => r is Ok && final(self)@ == old(self)@.insert(d.name, d),
                Err(e) => r == Err::<(), ExpansionBuildError>(e) && final(self)@ == old(self)@,
            },
    {
        let expansion_build_tokens = tokenize(expansion_build_str);
        let mac = match Expansion::build(expansion_build_tokens) {
            Ok(mac) => mac,
            Err(e) => {
                return Err(e);
            },
        };
        let ghost es = self.expansions@;
        let ghost d = mac@;
        proof {
            lemma_registry(es);
        }
        match self.find(mac.name()) {
            Some(i) => {
                self.expansions.set(i, mac);
                let ghost es2 = self.expansions@;
                assert(es2 == es.update(i as int, mac));
                assert(names_unique(es2)) by {
                    assert forall|a: int, b: int| 0 <= a < b < es2.len() implies es2[a]@.name
                        != es2[b]@.name by {
                        if a != i && b != i {
                            assert(es2[a] == es[a] && es2[b] == es[b]);
                        } else if a == i {
                            assert(es2[b] == es[b]);
                        } else {
                            assert(es2[a] == es[a]);
                        }
                    }
                }
                proof {
                    lemma_registry(es2);
                    assert forall|k: Seq<char>| #[trigger]
                        registry_of(es2).contains_key(k) == registry_of(es).insert(
                            d.name,
                            d,
                        ).contains_key(k) by {
                        if registry_of(es2).contains_key(k) {
                            let j = choose|j: int| 0 <= j < es2.len() && (#[trigger] es2[j])@.name == k;
                            if j != i {
                                assert(es[j] == es2[j]);
                            }
                        }
                        if registry_of(es).contains_key(k) {
                            let j = choose|j: int| 0 <= j < es.len() && (#[trigger] es[j])@.name == k;
                            if j != i {
                                assert(es[j] == es2[j]);
                            } else {
                                assert(es2[j]@.name == k);
                            }
                        }
                        if k == d.name {
                            assert(es2[i as int]@.name == k);
                        }
                    }
                    assert forall|k: Seq<char>| #[trigger]
                        registry_of(es2).contains_key(k) implies registry_of(es2)[k] == registry_of(
                            es,
                        ).insert(d.name, d)[k] by {
                        let j = choose|j: int| 0 <= j < es2.len() && (#[trigger] es2[j])@.name == k;
                        if j != i {
                            assert(es[j] == es2[j]);
                        }
                    }
                    assert(registry_of(es2) =~= registry_of(es).insert(d.name, d));
                }
            },
            None => {
                self.expansions.push(mac);
                let ghost es2 = self.expansions@;
                assert(es2.drop_last() =~= es);
                assert(names_unique(es2)) by {
                    assert forall|a: int, b: int| 0 <= a < b < es2.len() implies es2[a]@.name
                        != es2[b]@.name by {
                        if b == es.len() {
                            assert(es2[a] == es[a]);
                            assert(registry_of(es).contains_key(es[a]@.name));
                        } else {
                            assert(es2[a] == es[a] && es2[b] == es[b]);
                        }
                    }
                }
            },
        }
        Ok(())
    }

    /// The macro registered under `name`.
    pub fn lookup(&self, name: &String) -> (r: Option<&Expansion>)
        requires
            self.wf(),
        ensures
            match r {
                Some(e) => self@.contains_key(name@) && e@ == self@[name@] && e.wf(),
                None => !self@.contains_key(name@),
            },
    {
        match self.find(name) {
            Some(i) => Some(&self.expansions[i]),
            None => None,
        }
    }

    /// Expands the invocation whose name is query token `idx`: the expanded
    /// text and the index just past the invocation's argument span.
    pub fn expand_at(&self, query_tokens: &Vec<Token>, idx: usize) -> (r: Result<
        (String, usize),
        QueryError,
    >)
        requires
            self.wf(),
        ensures
            match r {
                Ok((s, next)) => idx < next <= query_tokens.len() && expand_invocation(
                    token_views(query_tokens@),
                    self@,
                    idx as int,
                ) == Ok::<(Seq<char>, int), QueryError>((s@, next as int)),
                Err(e) => expand_invocation(token_views(query_tokens@), self@, idx as int) == Err::<
                    (Seq<char>, int),
                    QueryError,
                >(e),
            },
    {
        let ghost v = token_views(query_tokens@);
        let n = query_tokens.len();
        if idx >= n {
            return Err(QueryError::UnknownReference(idx));
        }
        let name = match &query_tokens[idx] {
            Token::Literal(w) => w,
            _ => {
                return Err(QueryError::UnknownReference(idx));
            },
        };
        let mac = match self.lookup(name) {
            Some(mac) => mac,
            None => {
                return Err(QueryError::UnknownReference(idx));
            },
        };
        if n - idx <= 2 || !matches!(query_tokens[idx + 1], Token::Colon) || !matches!(
            query_tokens[idx + 2],
            Token::OpenParentheses
        ) {
            return Err(QueryError::MissingParentheses(idx + 1));
        }
        let m = match find_block_end(query_tokens, idx + 3) {
            Some(m) => m,
            None => {
                return Err(QueryError::UnbalancedBraces(idx + 2));
            },
        };
        match mac.query(query_tokens, idx + 2, m) {
            Ok(toks) => Ok((render_tokens(&toks), m + 1)),
            Err(e) => Err(e),
        }
    }

    /// Expands every invocation of a registered macro in `query_str`; all
    /// other tokens are passed through as their text.
    pub fn query(&self, query_str: &str) -> (r: Result<String, QueryError>)
        requires
            self.wf(),
        ensures
            match r {
                Ok(s) => expand_query(query_str@, self@) == Ok::<Seq<char>, QueryError>(s@),
                Err(e) => expand_query(query_str@, self@) == Err::<Seq<char>, QueryError>(e),
            },
    {
        let query_tokens = tokenize(query_str);
        let ghost v = token_views(query_tokens@);
        let mut out = String::new();
        let mut idx: usize = 0;
        assert(expand_query(query_str@, self@) == prepend(out@, expand_from(v, self@, 0))) by {
            assert(Seq::<char>::empty() + Seq::<char>::empty() =~= Seq::<char>::empty());
            lemma_prepend_empty(expand_from(v, self@, 0));
        }
        while idx < query_tokens.len()
            invariant
                self.wf(),
                v == token_views(query_tokens@),
                idx <= query_tokens.len(),
                expand_query(query_str@, self@) == prepend(out@, expand_from(v, self@, idx as int)),
            decreases query_tokens.len() - idx,
        {
            let hit = match &query_tokens[idx] {
                Token::Literal(w) => self.lookup(w).is_some(),
                _ => false,
            };
            if hit {
                match self.expand_at(&query_tokens, idx) {
                    Ok((s, next)) => {
                        proof {
                            lemma_prepend_assoc(out@, s@, expand_from(v, self@, next as int));
                        }
                        push_str(&mut out, s.as_str());
                        idx = next;
                    },
                    Err(e) => {
                        return Err(e);
                    },
                }
            } else {
                let t = query_tokens[idx].as_str();
                proof {
                    lemma_prepend_assoc(out@, t@, expand_from(v, self@, idx + 1));
                }
                push_str(&mut out, t);
                idx = idx + 1;
            }
        }
        assert(out@ + Seq::<char>::empty() =~= out@);
        Ok(out)
    }
}

proof fn lemma_prepend_empty(r: Result<Seq<char>, QueryError>)
    ensures
        prepend(Seq::<char>::empty(), r) == r,
{
    if let Ok(s) = r {
        assert(Seq::<char>::empty() + s =~= s);
    }
}

proof fn lemma_prepend_assoc(a: Seq<char>, b: Seq<char>, r: Result<Seq<char>, QueryError>)
    ensures
        prepend(a, prepend(b, r)) == prepend(a + b, r),
{
    if let Ok(s) = r {
        assert(a + (b + s) =~= (a + b) + s);
    }
}

/// An invocation of a registered macro whose argument span holds fewer or more
/// literals than the macro has parameters fails with `ArgumentCountMismatch`
/// at the span's opening `{`, and the query yields no output.
pub proof fn lemma_argument_count_mismatch(
    qs: Seq<TokenView>,
    reg: Map<Seq<char>, ExpansionView>,
    i: int,
    m: int,
)
    requires
        is_invocation(qs, reg, i),
        i + 2 < qs.len(),
        qs[i + 1] is Colon,
        qs[i + 2] is OpenParentheses,
        block_end(qs, i + 3, 1) == Some(m),
        arguments(qs.subrange(i + 3, m)).len() != reg[qs[i]->Literal_0].params.len(),
    ensures
        expand_invocation(qs, reg, i) == Err::<(Seq<char>, int), QueryError>(
            QueryError::ArgumentCountMismatch((i + 2) as usize),
        ),
        expand_from(qs, reg, i) == Err::<Seq<char>, QueryError>(
            QueryError::ArgumentCountMismatch((i + 2) as usize),
        ),
{
}

/// A literal that names no registered macro is passed through as its own
/// text, and expansion goes on with the next token.
pub proof fn lemma_unknown_name_passes_through(
    qs: Seq<TokenView>,
    reg: Map<Seq<char>, ExpansionView>,
    i: int,
)
    requires
        0 <= i < qs.len(),
        qs[i] is Literal,
        !reg.contains_key(qs[i]->Literal_0),
    ensures
        expand_from(qs, reg, i) == prepend(qs[i]->Literal_0, expand_from(qs, reg, i + 1)),
{
}

/// Query tokens from `i` on in which no literal names a registered macro come
/// out as their text, unchanged.
pub proof fn lemma_query_without_invocations(
    qs: Seq<TokenView>,
    reg: Map<Seq<char>, ExpansionView>,
    i: int,
)
    requires
        0 <= i <= qs.len(),
        forall|k: int| i <= k < qs.len() ==> !#[trigger] is_invocation(qs, reg, k),
    ensures
        expand_from(qs, reg, i) == Ok::<Seq<char>, QueryError>(
            render(qs.subrange(i, qs.len() as int)),
        ),
    decreases qs.len() - i,
{
    let n = qs.len() as int;
    if i == n {
        assert(qs.subrange(i, n) =~= Seq::<TokenView>::empty());
    } else {
        lemma_query_without_invocations(qs, reg, i + 1);
        lemma_render_front(qs.subrange(i, n));
        assert(qs.subrange(i, n).drop_first() =~= qs.subrange(i + 1, n));
        assert(!is_invocation(qs, reg, i));
    }
}

} // verus!
