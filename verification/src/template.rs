//! A template: text with named placeholders, and the values bound to them.

use vstd::prelude::*;
use vstd::string::StringExecFns;
use crate::error::{TemplateError, TemplateErrorView, text_result};
use crate::grammar::{
    Token, declared, first_occurrences, hole_names, lemma_first_occurrences, lemma_literal_push,
    lemma_render_concat, lemma_render_literal, lemma_render_one, lemma_render_plain,
    lemma_unbound, literal, placeholder_end, render_tokens, rendered, tokens, tokens_from,
    unbound, written,
};
use crate::text::{string_of, to_chars};

verus! {

/// The mathematical content of a [`Template`].
pub struct TemplateView {
    /// The text that the template was made from.
    pub source: Seq<char>,
    /// The values assigned so far, by placeholder name.
    pub bindings: Map<Seq<char>, Seq<char>>,
}

impl TemplateView {
    /// The declared placeholder names: distinct, in order of first appearance.
    pub open spec fn placeholders(self) -> Seq<Seq<char>> {
        declared(self.source)
    }

    /// Whether the template declares `name`.
    pub open spec fn declares(self, name: Seq<char>) -> bool {
        self.placeholders().contains(name)
    }

    /// Every binding is for a declared name.
    pub open spec fn consistent(self) -> bool {
        forall|name: Seq<char>| self.bindings.contains_key(name) ==> self.declares(name)
    }

    /// The declared names without a value, in order of first appearance.
    pub open spec fn missing(self) -> Seq<Seq<char>> {
        unbound(self.placeholders(), self.bindings)
    }

    /// The template after `name` was given `value`.
    pub open spec fn bind(self, name: Seq<char>, value: Seq<char>) -> TemplateView {
        TemplateView { source: self.source, bindings: self.bindings.insert(name, value) }
    }

    /// The source with each bound placeholder replaced by its value, and each
    /// unbound one left as it was written.
    pub open spec fn expansion(self) -> Seq<char> {
        rendered(self.source, self.bindings)
    }

    /// What rendering gives: the expansion if nothing is missing, else all
    /// the missing names.
    pub open spec fn render(self) -> Result<Seq<char>, TemplateErrorView> {
        if self.missing().len() == 0 {
            Ok(self.expansion())
        } else {
            Err(TemplateErrorView::UnresolvedPlaceholders { missing: self.missing() })
        }
    }
}

/// A stretch of template text as the library holds it.
enum Segment {
    /// Text that is copied to the output.
    Literal(String),
    /// A placeholder, by its index among the declared names.
    Hole(usize),
}

spec fn segment_tokens(seg: Segment, names: Seq<Seq<char>>) -> Seq<Token> {
    match seg {
        Segment::Literal(text) => literal(text@),
        Segment::Hole(j) => seq![Token::Hole(names[j as int])],
    }
}

spec fn segments_tokens(segs: Seq<Segment>, names: Seq<Seq<char>>) -> Seq<Token>
    decreases segs.len(),
{
    if segs.len() == 0 {
        Seq::empty()
    } else {
        segments_tokens(segs.drop_last(), names) + segment_tokens(segs.last(), names)
    }
}

spec fn holes_within(segs: Seq<Segment>, n: int) -> bool {
    forall|k: int|
        0 <= k < segs.len() ==> (#[trigger] segs[k] matches Segment::Hole(j) ==> j < n)
}

proof fn lemma_segments_push(segs: Seq<Segment>, seg: Segment, names: Seq<Seq<char>>)
    ensures
        segments_tokens(segs.push(seg), names) == segments_tokens(segs, names) + segment_tokens(
            seg,
            names,
        ),
{
    assert(segs.push(seg).drop_last() =~= segs);
}

proof fn lemma_segments_more_names(segs: Seq<Segment>, names: Seq<Seq<char>>, name: Seq<char>)
    requires
        holes_within(segs, names.len() as int),
    ensures
        segments_tokens(segs, names.push(name)) == segments_tokens(segs, names),
    decreases segs.len(),
{
    if segs.len() > 0 {
        let front = segs.drop_last();
        assert(holes_within(front, names.len() as int)) by {
            assert forall|k: int| 0 <= k < front.len() implies (
            #[trigger] front[k] matches Segment::Hole(j) ==> j < names.len()) by {
                assert(front[k] == segs[k]);
            }
        }
        lemma_segments_more_names(front, names, name);
        assert(segs[segs.len() - 1] == segs.last());
    }
}

/// The index of `name` in `names`, if it is there.
fn position_of(names: &Vec<String>, name: &String) -> (r: Option<usize>)
    ensures
        match r {
            Some(j) => j < names.len() && names.deep_view()[j as int] == name@,
            None => !names.deep_view().contains(name@),
        },
{
    let mut j: usize = 0;
    while j < names.len()
        invariant
            j <= names.len(),
            forall|k: int| 0 <= k < j ==> names.deep_view()[k] != name@,
        decreases names.len() - j,
    {
        if names[j] == *name {
            return Some(j);
        }
        j += 1;
    }
    None
}

/// The index of `name` in `names`, after adding it at the end if it was not there.
fn intern(names: &mut Vec<String>, name: String) -> (j: usize)
    ensures
        j < final(names).len(),
        final(names).deep_view()[j as int] == name@,
        final(names).deep_view() == if old(names).deep_view().contains(name@) {
            old(names).deep_view()
        } else {
            old(names).deep_view().push(name@)
        },
{
    match position_of(names, &name) {
        Some(j) => j,
        None => {
            let j = names.len();
            names.push(name);
            assert(names.deep_view() =~= old(names).deep_view().push(name@));
            j
        },
    }
}

/// Splits template text into segments and collects the declared names.
fn parse(chars: &Vec<char>) -> (r: (Vec<Segment>, Vec<String>))
    ensures
        segments_tokens(r.0@, r.1.deep_view()) == tokens(chars@),
        holes_within(r.0@, r.1.len() as int),
        r.1.deep_view() == declared(chars@),
{
    let mut segments: Vec<Segment> = Vec::new();
    let mut names: Vec<String> = Vec::new();
    let mut run = String::new();
    let mut i: usize = 0;
    let ghost mut done: Seq<Token> = Seq::empty();
    proof {
        assert(done + tokens_from(chars@, 0) =~= tokens(chars@));
        assert(segments_tokens(segments@, names.deep_view()) + literal(run@) =~= done);
        assert(names.deep_view() =~= first_occurrences(hole_names(done)));
    }
    while i < chars.len()
        invariant
            i <= chars.len(),
            done + tokens_from(chars@, i as int) == tokens(chars@),
            done == segments_tokens(segments@, names.deep_view()) + literal(run@),
            names.deep_view() == first_occurrences(hole_names(done)),
            holes_within(segments@, names.len() as int),
        decreases chars.len() - i,
    {
        let ghost before = done;
        match placeholder_end(chars, i) {
            Some(e) => {
                let name = string_of(chars, i + 2, e);
                if !run.as_str().is_empty() {
                    proof {
                        lemma_segments_push(segments@, Segment::Literal(run), names.deep_view());
                    }
                    segments.push(Segment::Literal(run));
                    run = String::new();
                }
                assert(before =~= segments_tokens(segments@, names.deep_view()));
                let ghost flushed = segments@;
                let ghost known = names.deep_view();
                let j = intern(&mut names, name);
                segments.push(Segment::Hole(j));
                proof {
                    let hole = Token::Hole(name@);
                    done = before.push(hole);
                    if !known.contains(name@) {
                        lemma_segments_more_names(flushed, known, name@);
                    }
                    lemma_segments_push(flushed, Segment::Hole(j), names.deep_view());
                    assert(segments_tokens(segments@, names.deep_view()) =~= done);
                    assert(done + tokens_from(chars@, e + 2) =~= before + tokens_from(
                        chars@,
                        i as int,
                    ));
                    assert(done.drop_last() =~= before);
                    assert(segments_tokens(segments@, names.deep_view()) + literal(run@) =~= done);
                    let seen = hole_names(before);
                    assert(hole_names(done) =~= seen.push(name@));
                    assert(seen.push(name@).drop_last() =~= seen);
                }
                i = e + 2;
            },
            None => {
                let c = chars[i];
                let ghost held = run@;
                run.push(c);
                proof {
                    done = before.push(Token::Text(seq![c]));
                    lemma_literal_push(held, c);
                    assert(done + tokens_from(chars@, i + 1) =~= before + tokens_from(
                        chars@,
                        i as int,
                    ));
                    assert(done.drop_last() =~= before);
                    assert(hole_names(done) =~= hole_names(before));
                }
                i += 1;
            },
        }
    }
    if !run.as_str().is_empty() {
        proof {
            lemma_segments_push(segments@, Segment::Literal(run), names.deep_view());
        }
        segments.push(Segment::Literal(run));
    }
    proof {
        assert(done + tokens_from(chars@, i as int) =~= done);
        assert(segments_tokens(segments@, names.deep_view()) =~= done);
    }
    (segments, names)
}

/// Text with named placeholders, together with the values bound to them.
///
/// The text is parsed once, when the template is made. Values are bound with
/// [`Template::set`], which accepts declared names only, and
/// [`Template::render`] gives the text with every placeholder replaced.
pub struct Template {
    source: String,
    segments: Vec<Segment>,
    names: Vec<String>,
    values: Vec<Option<String>>,
    bound: Ghost<Map<Seq<char>, Seq<char>>>,
}

impl View for Template {
    type V = TemplateView;

    closed spec fn view(&self) -> TemplateView {
        TemplateView { source: self.source@, bindings: self.bound@ }
    }
}

impl Template {
    /// The fields agree with each other and with the source text.
    pub closed spec fn inv(&self) -> bool {
        let names = self.names.deep_view();
        &&& segments_tokens(self.segments@, names) == tokens(self.source@)
        &&& holes_within(self.segments@, names.len() as int)
        &&& names == declared(self.source@)
        &&& names.no_duplicates()
        &&& self.values.len() == self.names.len()
        &&& forall|j: int|
            0 <= j < names.len() ==> match #[trigger] self.values@[j] {
                Some(value) => self.bound@.contains_key(names[j]) && self.bound@[names[j]]
                    == value@,
                None => !self.bound@.contains_key(names[j]),
            }
        &&& forall|name: Seq<char>| self.bound@.contains_key(name) ==> names.contains(name)
    }

    /// The template is well formed: every function of the library gives and
    /// keeps this.
    pub open spec fn wf(&self) -> bool {
        &&& self.inv()
        &&& self@.consistent()
    }

    /// Makes a template from `text`. Every `{{name}}` in it declares the
    /// placeholder `name`; braces that do not form a placeholder are
    /// ordinary text. Nothing is bound yet.
    pub fn from_text(text: &str) -> (t: Template)
        ensures
            t.wf(),
            t@.source == text@,
            t@.bindings == Map::<Seq<char>, Seq<char>>::empty(),
    {
        let chars = to_chars(text);
        let (segments, names) = parse(&chars);
        let mut values: Vec<Option<String>> = Vec::new();
        let mut j: usize = 0;
        while j < names.len()
            invariant
                j <= names.len(),
                values.len() == j,
                forall|k: int| 0 <= k < j ==> values@[k] is None,
            decreases names.len() - j,
        {
            values.push(None);
            j += 1;
        }
        proof {
            lemma_first_occurrences(hole_names(tokens(text@)));
        }
        Template {
            source: String::from_str(text),
            segments,
            names,
            values,
            bound: Ghost(Map::empty()),
        }
    }

    /// Binds `value` to the placeholder `name`, replacing an earlier value.
    /// A name that the template does not declare is refused, and the
    /// template stays as it was.
    pub fn set(&mut self, name: &str, value: &str) -> (r: Result<(), TemplateError>)
        requires
            old(self).wf(),
        ensures
            final(self).wf(),
            old(self)@.declares(name@) ==> r is Ok && final(self)@ == old(self)@.bind(
                name@,
                value@,
            ),
            !old(self)@.declares(name@) ==> final(self)@ == old(self)@ && (r matches Err(e) && e@
                == TemplateErrorView::UnknownPlaceholder { name: name@ }),
    {
        let key = String::from_str(name);
        match position_of(&self.names, &key) {
            Some(j) => {
                self.values.set(j, Some(String::from_str(value)));
                self.bound = Ghost(self.bound@.insert(name@, value@));
                proof {
                    let names = self.names.deep_view();
                    assert forall|k: int| 0 <= k < names.len() implies match (
                    #[trigger] self.values@[k]) {
                        Some(v) => self.bound@.contains_key(names[k]) && self.bound@[names[k]]
                            == v@,
                        None => !self.bound@.contains_key(names[k]),
                    } by {
                        if k != j {
                            assert(names[k] != names[j as int]);
                            assert(self.values@[k] == old(self).values@[k]);
                        }
                    }
                }
                Ok(())
            },
            None => Err(TemplateError::UnknownPlaceholder { name: key }),
        }
    }

    /// The text that the template was made from.
    pub fn source(&self) -> (r: &str)
        ensures
            r@ == self@.source,
    {
        self.source.as_str()
    }

    /// The declared placeholder names: distinct, in order of first
    /// appearance.
    pub fn placeholders(&self) -> (r: Vec<String>)
        requires
            self.wf(),
        ensures
            r.deep_view() == self@.placeholders(),
    {
        let mut out: Vec<String> = Vec::new();
        let mut j: usize = 0;
        while j < self.names.len()
            invariant
                j <= self.names.len(),
                out.deep_view() == self.names.deep_view().take(j as int),
            decreases self.names.len() - j,
        {
            let ghost copied = out.deep_view();
            out.push(self.names[j].clone());
            assert(out.deep_view() =~= copied.push(self.names.deep_view()[j as int]));
            j += 1;
        }
        assert(self.names.deep_view().take(j as int) =~= self.names.deep_view());
        out
    }

    /// Whether the template declares the placeholder `name`.
    pub fn has_placeholder(&self, name: &str) -> (r: bool)
        requires
            self.wf(),
        ensures
            r == self@.declares(name@),
    {
        let key = String::from_str(name);
        position_of(&self.names, &key).is_some()
    }

    /// The value bound to `name`, if there is one.
    pub fn get(&self, name: &str) -> (r: Option<&str>)
        requires
            self.wf(),
        ensures
            match r {
                Some(value) => self@.bindings.contains_key(name@) && self@.bindings[name@]
                    == value@,
                None => !self@.bindings.contains_key(name@),
            },
    {
        let key = String::from_str(name);
        match position_of(&self.names, &key) {
            Some(j) => match &self.values[j] {
                Some(value) => Some(value.as_str()),
                None => None,
            },
            None => None,
        }
    }

    /// The declared names that have no value yet, in order of first
    /// appearance.
    pub fn missing(&self) -> (r: Vec<String>)
        requires
            self.wf(),
        ensures
            r.deep_view() == self@.missing(),
    {
        let mut out: Vec<String> = Vec::new();
        let mut j: usize = 0;
        let ghost names = self.names.deep_view();
        assert(out.deep_view() =~= unbound(names.take(0), self.bound@));
        while j < self.names.len()
            invariant
                self.inv(),
                j <= self.names.len(),
                names == self.names.deep_view(),
                out.deep_view() == unbound(names.take(j as int), self.bound@),
            decreases self.names.len() - j,
        {
            let ghost found = out.deep_view();
            if self.values[j].is_none() {
                out.push(self.names[j].clone());
                assert(out.deep_view() =~= found.push(names[j as int]));
            }
            proof {
                assert(names.take(j + 1).drop_last() =~= names.take(j as int));
                assert(names.take(j + 1).last() == names[j as int]);
            }
            j += 1;
        }
        proof {
            assert(names.take(j as int) =~= names);
        }
        out
    }

    /// The source with each bound placeholder replaced by its value and each
    /// unbound one left as it was written.
    pub fn render_partial(&self) -> (out: String)
        requires
            self.wf(),
        ensures
            out@ == self@.expansion(),
    {
        let mut out = String::new();
        let mut k: usize = 0;
        let ghost names = self.names.deep_view();
        let ghost b = self.bound@;
        assert(self.segments@.take(0) =~= Seq::<Segment>::empty());
        while k < self.segments.len()
            invariant
                self.inv(),
                k <= self.segments.len(),
                names == self.names.deep_view(),
                b == self.bound@,
                out@ == render_tokens(segments_tokens(self.segments@.take(k as int), names), b),
            decreases self.segments.len() - k,
        {
            let ghost prefix = self.segments@.take(k as int);
            let ghost before = out@;
            let ghost seg = self.segments@[k as int];
            match &self.segments[k] {
                Segment::Literal(text) => {
                    out.append(text.as_str());
                    proof {
                        lemma_render_literal(text@, b);
                    }
                },
                Segment::Hole(j) => {
                    match &self.values[*j] {
                        Some(value) => {
                            out.append(value.as_str());
                        },
                        None => {
                            out.append("{{");
                            out.append(self.names[*j].as_str());
                            out.append("}}");
                            proof {
                                reveal_strlit("{{");
                                reveal_strlit("}}");
                                assert("{{"@ =~= seq!['{', '{']);
                                assert("}}"@ =~= seq!['}', '}']);
                                assert(out@ =~= before + written(names[*j as int]));
                            }
                        },
                    }
                    proof {
                        lemma_render_one(Token::Hole(names[*j as int]), b);
                    }
                },
            }
            proof {
                assert(self.segments@.take(k + 1) =~= prefix.push(seg));
                lemma_segments_push(prefix, seg, names);
                lemma_render_concat(segments_tokens(prefix, names), segment_tokens(seg, names), b);
                assert(out@ == before + render_tokens(segment_tokens(seg, names), b));
            }
            k += 1;
        }
        proof {
            assert(self.segments@.take(k as int) =~= self.segments@);
        }
        out
    }

    /// Renders the template. With a value for every declared placeholder the
    /// result is the source with each placeholder replaced; otherwise it is
    /// an error that lists every placeholder without a value.
    pub fn render(&self) -> (r: Result<String, TemplateError>)
        requires
            self.wf(),
        ensures
            text_result(r) == self@.render(),
            r is Ok <==> self@.placeholders().to_set().subset_of(self@.bindings.dom()),
            r matches Err(TemplateError::UnresolvedPlaceholders { missing })
                ==> missing.deep_view().to_set() == self@.placeholders().to_set().difference(
                self@.bindings.dom(),
            ),
    {
        proof {
            self@.lemma_missing();
        }
        let missing = self.missing();
        if missing.len() == 0 {
            Ok(self.render_partial())
        } else {
            Err(TemplateError::UnresolvedPlaceholders { missing })
        }
    }
}

impl TemplateView {
    /// A template without placeholders renders to its source.
    pub proof fn lemma_plain_text(self)
        requires
            self.placeholders().len() == 0,
        ensures
            self.render() == Ok::<Seq<char>, TemplateErrorView>(self.source),
    {
        lemma_render_plain(self.source, self.bindings);
    }

    /// Rendering again gives the same again: what `render` returns is fixed
    /// by the source and the bindings.
    pub proof fn lemma_render_repeatable(
        self,
        first: Result<String, TemplateError>,
        second: Result<String, TemplateError>,
    )
        requires
            text_result(first) == self.render(),
            text_result(second) == self.render(),
        ensures
            text_result(first) == text_result(second),
    {
    }

    /// The missing names are the declared names minus the bound ones, and
    /// none is missing exactly if every declared name is bound.
    pub proof fn lemma_missing(self)
        ensures
            self.missing().to_set() == self.placeholders().to_set().difference(
                self.bindings.dom(),
            ),
            self.missing().len() == 0 <==> self.placeholders().to_set().subset_of(
                self.bindings.dom(),
            ),
            self.missing().no_duplicates(),
    {
        let names = self.placeholders();
        let lacking = self.missing();
        lemma_unbound(names, self.bindings);
        lemma_first_occurrences(hole_names(tokens(self.source)));
        assert(lacking.to_set() =~= names.to_set().difference(self.bindings.dom()));
        if lacking.len() > 0 {
            assert(lacking.contains(lacking[0]));
            assert(names.to_set().contains(lacking[0]));
        } else {
            assert forall|name: Seq<char>|
                names.to_set().contains(name) implies self.bindings.dom().contains(name) by {
                if !self.bindings.contains_key(name) {
                    assert(lacking.contains(name));
                }
            }
        }
    }
}

} // verus!
