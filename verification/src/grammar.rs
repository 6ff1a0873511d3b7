//! The placeholder grammar.
//!
//! A placeholder is written `{{name}}`, where `name` is one or more ASCII
//! letters, digits or underscores. Text is read from left to right; wherever
//! a placeholder starts it is taken whole, and every other character stands
//! for itself. Braces that do not form a placeholder are ordinary text.

use vstd::prelude::*;

verus! {

/// Whether `c` may appear in a placeholder name.
pub open spec fn is_name_char(c: char) -> bool {
    ||| 'a' <= c <= 'z'
    ||| 'A' <= c <= 'Z'
    ||| '0' <= c <= '9'
    ||| c == '_'
}

/// The end of the longest run of name characters that starts at `i`.
pub open spec fn name_end(s: Seq<char>, i: int) -> int
    decreases s.len() - i,
{
    if 0 <= i < s.len() && is_name_char(s[i]) {
        name_end(s, i + 1)
    } else {
        i
    }
}

/// Whether a placeholder starts at index `i` of `s`.
pub open spec fn placeholder_at(s: Seq<char>, i: int) -> bool {
    let e = name_end(s, i + 2);
    &&& 0 <= i
    &&& e + 1 < s.len()
    &&& s[i] == '{'
    &&& s[i + 1] == '{'
    &&& i + 2 < e
    &&& s[e] == '}'
    &&& s[e + 1] == '}'
}

/// Executable form of [`is_name_char`].
pub fn name_char(c: char) -> (r: bool)
    ensures
        r == is_name_char(c),
{
    ('a' <= c && c <= 'z') || ('A' <= c && c <= 'Z') || ('0' <= c && c <= '9') || c == '_'
}

/// Looks for a placeholder that starts at `i`; returns the index just past
/// its name, where the closing braces stand.
pub fn placeholder_end(text: &Vec<char>, i: usize) -> (r: Option<usize>)
    requires
        i < text.len(),
    ensures
        r is Some <==> placeholder_at(text@, i as int),
        r matches Some(e) ==> e == name_end(text@, i + 2) && i + 2 < e && e + 2 <= text.len(),
{
    let n = text.len();
    if text[i] != '{' || n - i < 5 || text[i + 1] != '{' {
        return None;
    }
    let mut j: usize = i + 2;
    while j < n && name_char(text[j])
        invariant
            i + 2 <= j <= n,
            n == text.len(),
            name_end(text@, i + 2) == name_end(text@, j as int),
        decreases n - j,
    {
        j += 1;
    }
    if j > i + 2 && n - j >= 2 && text[j] == '}' && text[j + 1] == '}' {
        Some(j)
    } else {
        None
    }
}

/// Where `name_end` points: behind a run of name characters, at a character
/// that is none or at the end of the text.
pub proof fn lemma_name_end(s: Seq<char>, i: int)
    requires
        0 <= i <= s.len(),
    ensures
        i <= name_end(s, i) <= s.len(),
        forall|k: int| i <= k < name_end(s, i) ==> is_name_char(#[trigger] s[k]),
        name_end(s, i) < s.len() ==> !is_name_char(s[name_end(s, i)]),
    decreases s.len() - i,
{
    if i < s.len() && is_name_char(s[i]) {
        lemma_name_end(s, i + 1);
    }
}

/// Text that reads `{{`, then one or more name characters up to `e`, then
/// `}}`, is a placeholder, and its name ends at `e`.
pub proof fn lemma_placeholder_reads(s: Seq<char>, i: int, e: int)
    requires
        0 <= i,
        i + 2 < e,
        e + 2 <= s.len(),
        s[i] == '{',
        s[i + 1] == '{',
        forall|k: int| i + 2 <= k < e ==> is_name_char(#[trigger] s[k]),
        s[e] == '}',
        s[e + 1] == '}',
    ensures
        placeholder_at(s, i),
        name_end(s, i + 2) == e,
{
    lemma_name_end(s, i + 2);
    let end = name_end(s, i + 2);
    if end < e {
        assert(is_name_char(s[end]));
    }
    if end > e {
        assert(is_name_char(s[e]));
    }
}

/// One lexical unit of template text.
pub enum Token {
    /// Characters that stand for themselves.
    Text(Seq<char>),
    /// A placeholder, by its name.
    Hole(Seq<char>),
}

/// The tokens of `s` from index `i` on.
pub open spec fn tokens_from(s: Seq<char>, i: int) -> Seq<Token>
    decreases s.len() - i,
{
    if i < 0 || i >= s.len() {
        Seq::empty()
    } else if placeholder_at(s, i) {
        let e = name_end(s, i + 2);
        seq![Token::Hole(s.subrange(i + 2, e))] + tokens_from(s, e + 2)
    } else {
        seq![Token::Text(seq![s[i]])] + tokens_from(s, i + 1)
    }
}

/// The tokens of the whole text `s`.
pub open spec fn tokens(s: Seq<char>) -> Seq<Token> {
    tokens_from(s, 0)
}

/// The tokens of text that is taken literally: one for each character.
pub open spec fn literal(t: Seq<char>) -> Seq<Token>
    decreases t.len(),
{
    if t.len() == 0 {
        Seq::empty()
    } else {
        literal(t.drop_last()).push(Token::Text(seq![t.last()]))
    }
}

/// A placeholder as it is written in template text.
pub open spec fn written(name: Seq<char>) -> Seq<char> {
    seq!['{', '{'] + name + seq!['}', '}']
}

/// What one token contributes to the output under the bindings `b`: text is
/// copied, a bound placeholder gives its value, and an unbound one stays as
/// it was written.
pub open spec fn token_text(t: Token, b: Map<Seq<char>, Seq<char>>) -> Seq<char> {
    match t {
        Token::Text(t) => t,
        Token::Hole(name) => if b.contains_key(name) {
            b[name]
        } else {
            written(name)
        },
    }
}

/// The output of a token sequence under the bindings `b`.
pub open spec fn render_tokens(ts: Seq<Token>, b: Map<Seq<char>, Seq<char>>) -> Seq<char>
    decreases ts.len(),
{
    if ts.len() == 0 {
        Seq::empty()
    } else {
        render_tokens(ts.drop_last(), b) + token_text(ts.last(), b)
    }
}

/// The text `s` with every bound placeholder replaced by its value.
pub open spec fn rendered(s: Seq<char>, b: Map<Seq<char>, Seq<char>>) -> Seq<char> {
    render_tokens(tokens(s), b)
}

/// The names of the placeholders among `ts`, one per occurrence, in order.
pub open spec fn hole_names(ts: Seq<Token>) -> Seq<Seq<char>>
    decreases ts.len(),
{
    if ts.len() == 0 {
        Seq::empty()
    } else {
        let rest = hole_names(ts.drop_last());
        match ts.last() {
            Token::Hole(name) => rest.push(name),
            Token::Text(_) => rest,
        }
    }
}

/// The distinct items of `q`, each at the place of its first occurrence.
pub open spec fn first_occurrences(q: Seq<Seq<char>>) -> Seq<Seq<char>>
    decreases q.len(),
{
    if q.len() == 0 {
        Seq::empty()
    } else {
        let rest = first_occurrences(q.drop_last());
        if rest.contains(q.last()) {
            rest
        } else {
            rest.push(q.last())
        }
    }
}

/// The placeholder names that the text `s` declares: distinct, in order of
/// first appearance.
pub open spec fn declared(s: Seq<char>) -> Seq<Seq<char>> {
    first_occurrences(hole_names(tokens(s)))
}

/// The items of `names` that `b` does not bind, in the order of `names`.
pub open spec fn unbound(names: Seq<Seq<char>>, b: Map<Seq<char>, Seq<char>>) -> Seq<Seq<char>>
    decreases names.len(),
{
    if names.len() == 0 {
        Seq::empty()
    } else {
        let rest = unbound(names.drop_last(), b);
        if b.contains_key(names.last()) {
            rest
        } else {
            rest.push(names.last())
        }
    }
}

/// Rendering distributes over concatenation.
pub proof fn lemma_render_concat(x: Seq<Token>, y: Seq<Token>, b: Map<Seq<char>, Seq<char>>)
    ensures
        render_tokens(x + y, b) == render_tokens(x, b) + render_tokens(y, b),
    decreases y.len(),
{
    if y.len() == 0 {
        assert(x + y =~= x);
        assert(render_tokens(x, b) + render_tokens(y, b) =~= render_tokens(x, b));
    } else {
        assert((x + y).drop_last() =~= x + y.drop_last());
        assert((x + y).last() == y.last());
        lemma_render_concat(x, y.drop_last(), b);
        assert(render_tokens(x + y, b) =~= render_tokens(x, b) + render_tokens(y, b));
    }
}

/// Membership in a sequence, by its last item and the rest.
pub proof fn lemma_contains_last<A>(q: Seq<A>, x: A)
    requires
        q.len() > 0,
    ensures
        q.contains(x) <==> q.drop_last().contains(x) || q.last() == x,
{
    let front = q.drop_last();
    if q.contains(x) {
        let i = choose|i: int| 0 <= i < q.len() && q[i] == x;
        if i < q.len() - 1 {
            assert(front[i] == x);
        }
    }
    if front.contains(x) {
        let i = choose|i: int| 0 <= i < front.len() && front[i] == x;
        assert(q[i] == x);
    }
    if q.last() == x {
        assert(q[q.len() - 1] == x);
    }
}

/// Membership in a sequence that one item was pushed to.
pub proof fn lemma_contains_push<A>(q: Seq<A>, v: A, x: A)
    ensures
        q.push(v).contains(x) <==> q.contains(x) || v == x,
{
    assert(q.push(v).drop_last() =~= q);
    lemma_contains_last(q.push(v), x);
}

/// A single token renders to its own text.
pub proof fn lemma_render_one(t: Token, b: Map<Seq<char>, Seq<char>>)
    ensures
        render_tokens(seq![t], b) == token_text(t, b),
{
    assert(seq![t].drop_last() =~= Seq::<Token>::empty());
    assert(render_tokens(Seq::<Token>::empty(), b) =~= Seq::<char>::empty());
    assert(render_tokens(seq![t], b) =~= token_text(t, b));
}

/// Literal text grows by one token for each character.
pub proof fn lemma_literal_push(t: Seq<char>, c: char)
    ensures
        literal(t.push(c)) == literal(t).push(Token::Text(seq![c])),
{
    assert(t.push(c).drop_last() =~= t);
}

/// Literal text renders to itself, whatever is bound.
pub proof fn lemma_render_literal(t: Seq<char>, b: Map<Seq<char>, Seq<char>>)
    ensures
        render_tokens(literal(t), b) == t,
    decreases t.len(),
{
    if t.len() > 0 {
        let front = t.drop_last();
        assert(literal(t).drop_last() =~= literal(front));
        lemma_render_literal(front, b);
        assert(render_tokens(literal(t), b) =~= t);
    } else {
        assert(render_tokens(literal(t), b) =~= t);
    }
}

/// `first_occurrences` keeps every item, once.
pub proof fn lemma_first_occurrences(q: Seq<Seq<char>>)
    ensures
        first_occurrences(q).no_duplicates(),
        first_occurrences(q).len() <= q.len(),
        forall|x: Seq<char>| #[trigger] first_occurrences(q).contains(x) <==> q.contains(x),
    decreases q.len(),
{
    if q.len() > 0 {
        let front = q.drop_last();
        let kept = first_occurrences(front);
        lemma_first_occurrences(front);
        assert forall|x: Seq<char>| #[trigger] first_occurrences(q).contains(x) <==> q.contains(
            x,
        ) by {
            lemma_contains_last(q, x);
            lemma_contains_push(kept, q.last(), x);
            assert(kept.contains(x) <==> front.contains(x));
            assert(kept.contains(q.last()) <==> front.contains(q.last()));
        }
    }
}

/// The unbound names are exactly the names that the bindings lack.
pub proof fn lemma_unbound(names: Seq<Seq<char>>, b: Map<Seq<char>, Seq<char>>)
    ensures
        forall|x: Seq<char>| #[trigger]
            unbound(names, b).contains(x) <==> names.contains(x) && !b.contains_key(x),
        unbound(names, b).len() <= names.len(),
        names.no_duplicates() ==> unbound(names, b).no_duplicates(),
    decreases names.len(),
{
    if names.len() > 0 {
        let front = names.drop_last();
        let rest = unbound(front, b);
        lemma_unbound(front, b);
        assert forall|x: Seq<char>| #[trigger]
            unbound(names, b).contains(x) <==> names.contains(x) && !b.contains_key(x) by {
            lemma_contains_last(names, x);
            lemma_contains_push(rest, names.last(), x);
            assert(rest.contains(x) <==> front.contains(x) && !b.contains_key(x));
        }
        if names.no_duplicates() {
            assert(front.no_duplicates());
            if front.contains(names.last()) {
                let i = choose|i: int| 0 <= i < front.len() && front[i] == names.last();
                assert(names[i] == names[names.len() - 1]);
            }
            assert(rest.contains(names.last()) <==> front.contains(names.last())
                && !b.contains_key(names.last()));
        }
    }
}

/// With nothing bound, text renders to itself: every placeholder stays as it
/// was written.
pub proof fn lemma_render_nothing_bound(s: Seq<char>, i: int)
    requires
        0 <= i <= s.len(),
    ensures
        render_tokens(tokens_from(s, i), Map::empty()) == s.subrange(i, s.len() as int),
    decreases s.len() - i,
{
    let b = Map::<Seq<char>, Seq<char>>::empty();
    if i < s.len() {
        if placeholder_at(s, i) {
            let e = name_end(s, i + 2);
            let hole = Token::Hole(s.subrange(i + 2, e));
            lemma_render_nothing_bound(s, e + 2);
            lemma_render_concat(seq![hole], tokens_from(s, e + 2), b);
            lemma_render_one(hole, b);
            assert(written(s.subrange(i + 2, e)) + s.subrange(e + 2, s.len() as int) =~= s.subrange(
                i,
                s.len() as int,
            ));
        } else {
            let text = Token::Text(seq![s[i]]);
            lemma_render_nothing_bound(s, i + 1);
            lemma_render_concat(seq![text], tokens_from(s, i + 1), b);
            lemma_render_one(text, b);
            assert(seq![s[i]] + s.subrange(i + 1, s.len() as int) =~= s.subrange(
                i,
                s.len() as int,
            ));
        }
    } else {
        assert(s.subrange(i, s.len() as int) =~= Seq::<char>::empty());
    }
}

/// Rendering looks at the bindings of the names that occur, and at no
/// others.
pub proof fn lemma_render_agrees(
    ts: Seq<Token>,
    b1: Map<Seq<char>, Seq<char>>,
    b2: Map<Seq<char>, Seq<char>>,
)
    requires
        forall|name: Seq<char>| #[trigger]
            hole_names(ts).contains(name) ==> (b1.contains_key(name) <==> b2.contains_key(name))
                && (b1.contains_key(name) ==> b1[name] == b2[name]),
    ensures
        render_tokens(ts, b1) == render_tokens(ts, b2),
    decreases ts.len(),
{
    if ts.len() > 0 {
        let front = ts.drop_last();
        assert forall|name: Seq<char>| #[trigger]
            hole_names(front).contains(name) implies (b1.contains_key(name) <==> b2.contains_key(
            name,
        )) && (b1.contains_key(name) ==> b1[name] == b2[name]) by {
            match ts.last() {
                Token::Hole(last) => {
                    lemma_contains_push(hole_names(front), last, name);
                },
                Token::Text(_) => {},
            }
            assert(hole_names(ts).contains(name));
        }
        lemma_render_agrees(front, b1, b2);
        match ts.last() {
            Token::Hole(last) => {
                lemma_contains_push(hole_names(front), last, last);
                assert(hole_names(ts).contains(last));
            },
            Token::Text(_) => {},
        }
    }
}

/// Text that declares no placeholder renders to itself, whatever is bound.
pub proof fn lemma_render_plain(s: Seq<char>, b: Map<Seq<char>, Seq<char>>)
    requires
        declared(s).len() == 0,
    ensures
        rendered(s, b) == s,
{
    let names = hole_names(tokens(s));
    lemma_first_occurrences(names);
    if names.len() > 0 {
        assert(names.contains(names[0]));
        assert(declared(s).contains(names[0]));
    }
    assert forall|name: Seq<char>| #[trigger] names.contains(name) implies false by {
        let i = choose|i: int| 0 <= i < names.len() && names[i] == name;
    }
    lemma_render_agrees(tokens(s), b, Map::empty());
    lemma_render_nothing_bound(s, 0);
    assert(s.subrange(0, s.len() as int) =~= s);
}

} // verus!
