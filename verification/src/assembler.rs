//! Several templates rendered as one text, under values that they share.

use vstd::prelude::*;
use vstd::string::StringExecFns;
use crate::error::{TemplateError, TemplateErrorView, text_result};
use crate::executable::{ExecutableReference, ExecutableReferenceView};
use crate::pairs::{KeyValues, distinct_keys, lemma_key_position, lemma_upsert, upsert};
use crate::template::TemplateView;

verus! {

/// `t` with `name` bound to `value` where `t` declares the name, and `t`
/// itself where it does not.
pub open spec fn bind_if_declared(
    t: TemplateView,
    name: Seq<char>,
    value: Seq<char>,
) -> TemplateView {
    if t.declares(name) {
        t.bind(name, value)
    } else {
        t
    }
}

/// `t` after each of `globals` was offered to it, in their order.
pub open spec fn with_globals(
    t: TemplateView,
    globals: Seq<(Seq<char>, Seq<char>)>,
) -> TemplateView
    decreases globals.len(),
{
    if globals.len() == 0 {
        t
    } else {
        bind_if_declared(with_globals(t, globals.drop_last()), globals.last().0, globals.last().1)
    }
}

/// Whether the global `global` holds in `t`: if `t` declares its name, `t`
/// binds the name to its value.
pub open spec fn holds_in(global: (Seq<char>, Seq<char>), t: TemplateView) -> bool {
    t.declares(global.0) ==> t.bindings.contains_key(global.0) && t.bindings[global.0]
        == global.1
}

/// The entry `e` with its template replaced by `t`.
pub open spec fn entry_with(
    e: ExecutableReferenceView,
    t: TemplateView,
) -> ExecutableReferenceView {
    ExecutableReferenceView { template: t, dependencies: e.dependencies }
}

/// The least index at or after `from` of an entry that lacks a value, or the
/// number of entries if there is none.
pub open spec fn first_incomplete(entries: Seq<ExecutableReferenceView>, from: int) -> int
    decreases entries.len() - from,
{
    if 0 <= from < entries.len() && entries[from].template.missing().len() == 0 {
        first_incomplete(entries, from + 1)
    } else {
        from
    }
}

/// The expansions of `entries`, one after the other with nothing between
/// them.
pub open spec fn joined(entries: Seq<ExecutableReferenceView>) -> Seq<char>
    decreases entries.len(),
{
    if entries.len() == 0 {
        Seq::empty()
    } else {
        joined(entries.drop_last()) + entries.last().template.expansion()
    }
}

/// The mathematical content of an [`Assembler`].
pub struct AssemblerView {
    /// The entries, in the order in which they were added.
    pub entries: Seq<ExecutableReferenceView>,
    /// The global values, each name once.
    pub globals: Seq<(Seq<char>, Seq<char>)>,
}

impl AssemblerView {
    /// Whether some entry declares `name`.
    pub open spec fn declares(self, name: Seq<char>) -> bool {
        exists|i: int|
            0 <= i < self.entries.len() && (#[trigger] self.entries[i]).template.declares(name)
    }

    /// What holds of every assembler: each global name occurs once, is
    /// declared by some entry, and is bound to the global value in every
    /// entry that declares it; and no entry binds a name that it does not
    /// declare.
    pub open spec fn consistent(self) -> bool {
        &&& distinct_keys(self.globals)
        &&& forall|i: int|
            0 <= i < self.entries.len() ==> (#[trigger] self.entries[i]).template.consistent()
        &&& forall|g: int|
            0 <= g < self.globals.len() ==> self.declares((#[trigger] self.globals[g]).0)
        &&& forall|i: int, g: int|
            0 <= i < self.entries.len() && 0 <= g < self.globals.len() ==> holds_in(
                #[trigger] self.globals[g],
                (#[trigger] self.entries[i]).template,
            )
    }

    /// The assembler after `entry` was added: it stands last, with the
    /// globals applied to it.
    pub open spec fn add(self, entry: ExecutableReferenceView) -> AssemblerView {
        AssemblerView {
            entries: self.entries.push(
                entry_with(entry, with_globals(entry.template, self.globals)),
            ),
            globals: self.globals,
        }
    }

    /// The assembler after the global `name` was set to `value`: bound in
    /// every entry that declares the name, the other entries as they were.
    pub open spec fn set_global(self, name: Seq<char>, value: Seq<char>) -> AssemblerView {
        AssemblerView {
            entries: Seq::new(
                self.entries.len(),
                |i: int|
                    entry_with(
                        self.entries[i],
                        bind_if_declared(self.entries[i].template, name, value),
                    ),
            ),
            globals: upsert(self.globals, name, value),
        }
    }

    /// What rendering all entries gives: their expansions in order where
    /// every entry has all its values, and else the position of the first
    /// entry that has not, with the names that it lacks.
    pub open spec fn render_all(self) -> Result<Seq<char>, TemplateErrorView> {
        let at = first_incomplete(self.entries, 0);
        if at < self.entries.len() {
            Err(
                TemplateErrorView::Render {
                    position: at as nat,
                    missing: self.entries[at].template.missing(),
                },
            )
        } else {
            Ok(joined(self.entries))
        }
    }
}

/// Binding a declared name keeps a template consistent and its source as it
/// was.
pub proof fn lemma_bind_if_declared(t: TemplateView, name: Seq<char>, value: Seq<char>)
    requires
        t.consistent(),
    ensures
        bind_if_declared(t, name, value).consistent(),
        bind_if_declared(t, name, value).source == t.source,
{
    let u = bind_if_declared(t, name, value);
    assert forall|other: Seq<char>| u.bindings.contains_key(other) implies u.declares(other) by {
        if other != name {
            assert(t.bindings.contains_key(other));
        }
        assert(t.declares(other));
    }
}

/// Offering globals to a template changes no source, binds every global that
/// the template declares, and binds nothing that it does not declare.
pub proof fn lemma_with_globals(t: TemplateView, globals: Seq<(Seq<char>, Seq<char>)>)
    requires
        distinct_keys(globals),
        t.consistent(),
    ensures
        with_globals(t, globals).source == t.source,
        with_globals(t, globals).consistent(),
        forall|g: int|
            0 <= g < globals.len() ==> holds_in(#[trigger] globals[g], with_globals(t, globals)),
    decreases globals.len(),
{
    if globals.len() > 0 {
        let front = globals.drop_last();
        let last = globals.last();
        assert(distinct_keys(front)) by {
            assert forall|i: int, j: int| 0 <= i < j < front.len() implies front[i].0
                != front[j].0 by {
                assert(front[i] == globals[i]);
                assert(front[j] == globals[j]);
            }
        }
        lemma_with_globals(t, front);
        let u = with_globals(t, front);
        let w = with_globals(t, globals);
        assert(w == bind_if_declared(u, last.0, last.1));
        lemma_bind_if_declared(u, last.0, last.1);
        assert forall|g: int| 0 <= g < globals.len() implies holds_in(#[trigger] globals[g], w) by {
            if g < front.len() {
                assert(front[g] == globals[g]);
                assert(holds_in(front[g], u));
                assert(globals[g].0 != globals[globals.len() - 1].0);
            }
        }
    }
}

/// Adding an entry keeps an assembler consistent.
pub proof fn lemma_add_consistent(a: AssemblerView, entry: ExecutableReferenceView)
    requires
        a.consistent(),
        entry.template.consistent(),
    ensures
        a.add(entry).consistent(),
{
    let b = a.add(entry);
    let added = entry_with(entry, with_globals(entry.template, a.globals));
    lemma_with_globals(entry.template, a.globals);
    assert forall|i: int| 0 <= i < b.entries.len() implies (
    #[trigger] b.entries[i]).template.consistent() by {
        if i < a.entries.len() {
            assert(b.entries[i] == a.entries[i]);
        }
    }
    assert forall|g: int| 0 <= g < b.globals.len() implies b.declares(
        (#[trigger] b.globals[g]).0,
    ) by {
        let key = a.globals[g].0;
        assert(a.declares(key));
        let i = choose|i: int|
            0 <= i < a.entries.len() && (#[trigger] a.entries[i]).template.declares(key);
        assert(b.entries[i] == a.entries[i]);
    }
    assert forall|i: int, g: int|
        0 <= i < b.entries.len() && 0 <= g < b.globals.len() implies holds_in(
        #[trigger] b.globals[g],
        (#[trigger] b.entries[i]).template,
    ) by {
        if i < a.entries.len() {
            assert(b.entries[i] == a.entries[i]);
            assert(holds_in(a.globals[g], a.entries[i].template));
        } else {
            assert(b.entries[i] == added);
        }
    }
}

/// Setting a global that some entry declares keeps an assembler consistent.
pub proof fn lemma_set_global_consistent(a: AssemblerView, name: Seq<char>, value: Seq<char>)
    requires
        a.consistent(),
        a.declares(name),
    ensures
        a.set_global(name, value).consistent(),
{
    let b = a.set_global(name, value);
    lemma_upsert(a.globals, name, value, name);
    lemma_key_position(a.globals, name, 0);
    assert forall|i: int| 0 <= i < b.entries.len() implies (
    #[trigger] b.entries[i]).template.consistent() && b.entries[i].template.source
        == a.entries[i].template.source by {
        assert(a.entries[i].template.consistent());
        lemma_bind_if_declared(a.entries[i].template, name, value);
    }
    assert forall|g: int| 0 <= g < b.globals.len() implies b.declares(
        (#[trigger] b.globals[g]).0,
    ) by {
        let key = b.globals[g].0;
        if key == name {
            let i = choose|i: int|
                0 <= i < a.entries.len() && (#[trigger] a.entries[i]).template.declares(name);
            assert(b.entries[i].template.declares(key));
        } else {
            assert(a.globals[g].0 == key);
            assert(a.declares(a.globals[g].0));
            let i = choose|i: int|
                0 <= i < a.entries.len() && (#[trigger] a.entries[i]).template.declares(key);
            assert(b.entries[i].template.declares(key));
        }
    }
    assert forall|i: int, g: int|
        0 <= i < b.entries.len() && 0 <= g < b.globals.len() implies holds_in(
        #[trigger] b.globals[g],
        (#[trigger] b.entries[i]).template,
    ) by {
        assert(a.entries[i].template.consistent());
        if b.globals[g].0 != name {
            assert(a.globals[g] == b.globals[g]);
            assert(holds_in(a.globals[g], a.entries[i].template));
        }
    }
}

/// Where every entry has all its values, rendering all of them gives their
/// texts in the order in which they stand.
pub proof fn lemma_render_all_complete(a: AssemblerView)
    requires
        forall|i: int|
            0 <= i < a.entries.len() ==> (#[trigger] a.entries[i]).template.render() is Ok,
    ensures
        a.render_all() == Ok::<Seq<char>, TemplateErrorView>(joined(a.entries)),
{
    lemma_first_incomplete(a.entries, 0);
}

/// Where `first_incomplete` points.
pub proof fn lemma_first_incomplete(entries: Seq<ExecutableReferenceView>, from: int)
    requires
        0 <= from <= entries.len(),
    ensures
        from <= first_incomplete(entries, from) <= entries.len(),
        first_incomplete(entries, from) < entries.len() ==> entries[first_incomplete(
            entries,
            from,
        )].template.missing().len() > 0,
        forall|k: int|
            from <= k < first_incomplete(entries, from) ==> (
            #[trigger] entries[k]).template.missing().len() == 0,
    decreases entries.len() - from,
{
    if from < entries.len() && entries[from].template.missing().len() == 0 {
        lemma_first_incomplete(entries, from + 1);
    }
}

/// The entries come out in the order in which they stand: the text of two
/// runs of entries, one after the other, is the text of the first followed
/// by the text of the second.
pub proof fn lemma_joined_concat(x: Seq<ExecutableReferenceView>, y: Seq<ExecutableReferenceView>)
    ensures
        joined(x + y) == joined(x) + joined(y),
    decreases y.len(),
{
    if y.len() == 0 {
        assert(x + y =~= x);
        assert(joined(x) + joined(y) =~= joined(x));
    } else {
        assert((x + y).drop_last() =~= x + y.drop_last());
        assert((x + y).last() == y.last());
        lemma_joined_concat(x, y.drop_last());
        assert(joined(x + y) =~= joined(x) + joined(y));
    }
}

/// An ordered collection of templates that are rendered as one text, with
/// global values that hold in every one of them.
pub struct Assembler {
    entries: Vec<ExecutableReference>,
    globals: KeyValues,
}

impl View for Assembler {
    type V = AssemblerView;

    closed spec fn view(&self) -> AssemblerView {
        AssemblerView {
            entries: Seq::new(self.entries@.len(), |i: int| self.entries@[i]@),
            globals: self.globals@,
        }
    }
}

impl Assembler {
    /// Every entry is well formed.
    pub closed spec fn inv(&self) -> bool {
        forall|i: int| 0 <= i < self.entries@.len() ==> (#[trigger] self.entries@[i]).wf()
    }

    /// The assembler is well formed: every function of the library gives and
    /// keeps this.
    pub open spec fn wf(&self) -> bool {
        &&& self.inv()
        &&& self@.consistent()
    }

    /// An assembler without entries and without globals.
    pub fn new() -> (r: Assembler)
        ensures
            r.wf(),
            r@.entries == Seq::<ExecutableReferenceView>::empty(),
            r@.globals == Seq::<(Seq<char>, Seq<char>)>::empty(),
    {
        let r = Assembler { entries: Vec::new(), globals: KeyValues::new() };
        assert(r@.entries =~= Seq::<ExecutableReferenceView>::empty());
        r
    }

    /// The number of entries.
    pub fn len(&self) -> (n: usize)
        ensures
            n == self@.entries.len(),
    {
        self.entries.len()
    }

    /// The entry at index `i`.
    pub fn entry(&self, i: usize) -> (e: &ExecutableReference)
        requires
            self.wf(),
            i < self@.entries.len(),
        ensures
            e.wf(),
            e@ == self@.entries[i as int],
    {
        &self.entries[i]
    }

    /// The global values.
    pub fn globals(&self) -> (r: &KeyValues)
        requires
            self.wf(),
        ensures
            r.wf(),
            r@ == self@.globals,
    {
        &self.globals
    }

    /// Adds `entry` after the entries that are there. The globals that were
    /// set before hold in it too: each one that it declares is bound in it.
    pub fn add_template(&mut self, entry: ExecutableReference)
        requires
            old(self).wf(),
            entry.wf(),
        ensures
            final(self).wf(),
            final(self)@ == old(self)@.add(entry@),
    {
        let mut entry = entry;
        let ghost given = entry@;
        let ghost globals = self.globals@;
        let mut g: usize = 0;
        assert(globals.take(0) =~= Seq::<(Seq<char>, Seq<char>)>::empty());
        while g < self.globals.len()
            invariant
                g <= globals.len(),
                globals == self.globals@,
                entry.wf(),
                entry@ == entry_with(given, with_globals(given.template, globals.take(g as int))),
            decreases globals.len() - g,
        {
            proof {
                assert(globals.take(g + 1).drop_last() =~= globals.take(g as int));
                assert(globals.take(g + 1).last() == globals[g as int]);
            }
            match entry.set(self.globals.key(g), self.globals.value(g)) {
                Ok(()) => {},
                Err(_) => {},
            }
            g += 1;
        }
        proof {
            assert(globals.take(g as int) =~= globals);
            lemma_add_consistent(self@, given);
        }
        self.entries.push(entry);
        assert(self@.entries =~= old(self)@.entries.push(entry@));
    }

    /// Whether some entry declares the placeholder `name`.
    pub fn declares(&self, name: &str) -> (r: bool)
        requires
            self.wf(),
        ensures
            r == self@.declares(name@),
    {
        let mut i: usize = 0;
        while i < self.entries.len()
            invariant
                self.inv(),
                i <= self.entries.len(),
                forall|k: int|
                    0 <= k < i ==> !(#[trigger] self@.entries[k]).template.declares(name@),
            decreases self.entries.len() - i,
        {
            if self.entries[i].inner().has_placeholder(name) {
                assert(self@.entries[i as int].template.declares(name@));
                return true;
            }
            i += 1;
        }
        false
    }

    /// Sets the global `name` to `value`: binds it in every entry that
    /// declares the name and leaves the other entries as they are. Where no
    /// entry declares the name the call is refused and nothing changes.
    pub fn set_global(&mut self, name: &str, value: &str) -> (r: Result<(), TemplateError>)
        requires
            old(self).wf(),
        ensures
            final(self).wf(),
            old(self)@.declares(name@) ==> r is Ok && final(self)@ == old(self)@.set_global(
                name@,
                value@,
            ),
            !old(self)@.declares(name@) ==> final(self)@ == old(self)@ && (r matches Err(e) && e@
                == TemplateErrorView::UnknownPlaceholder { name: name@ }),
    {
        if !self.declares(name) {
            return Err(TemplateError::UnknownPlaceholder { name: String::from_str(name) });
        }
        let ghost before = self@;
        let mut i: usize = 0;
        while i < self.entries.len()
            invariant
                self.inv(),
                i <= self.entries.len(),
                self.globals == old(self).globals,
                self@.entries.len() == before.entries.len(),
                forall|k: int|
                    0 <= k < i ==> #[trigger] self@.entries[k] == entry_with(
                        before.entries[k],
                        bind_if_declared(before.entries[k].template, name@, value@),
                    ),
                forall|k: int|
                    i <= k < self.entries.len() ==> #[trigger] self@.entries[k]
                        == before.entries[k],
            decreases self.entries.len() - i,
        {
            let ghost held = self.entries@;
            let ghost shown = self@.entries;
            assert(shown[i as int] == held[i as int]@);
            match self.entries[i].set(name, value) {
                Ok(()) => {},
                Err(_) => {},
            }
            proof {
                assert(self@.entries[i as int] == self.entries@[i as int]@);
                assert forall|k: int| 0 <= k < self.entries@.len() && k != i implies (
                #[trigger] self@.entries[k]) == shown[k] by {
                    assert(self.entries@[k] == held[k]);
                    assert(shown[k] == held[k]@);
                }
            }
            i += 1;
        }
        self.globals.insert(String::from_str(name), String::from_str(value));
        proof {
            lemma_set_global_consistent(before, name@, value@);
            assert(self@.entries =~= before.set_global(name@, value@).entries);
        }
        Ok(())
    }

    /// Renders every entry, in the order in which they were added, and
    /// joins the results with nothing between them. The first entry that
    /// lacks a value ends the rendering with an error that gives its
    /// position and the names that it lacks.
    pub fn render_all(&self) -> (r: Result<String, TemplateError>)
        requires
            self.wf(),
        ensures
            text_result(r) == self@.render_all(),
    {
        let mut out = String::new();
        let mut i: usize = 0;
        let ghost entries = self@.entries;
        assert(entries.take(0) =~= Seq::<ExecutableReferenceView>::empty());
        while i < self.entries.len()
            invariant
                self.inv(),
                i <= self.entries.len(),
                entries == self@.entries,
                first_incomplete(entries, 0) == first_incomplete(entries, i as int),
                out@ == joined(entries.take(i as int)),
            decreases self.entries.len() - i,
        {
            let template = self.entries[i].inner();
            let missing = template.missing();
            if missing.len() > 0 {
                return Err(TemplateError::Render { position: i, missing });
            }
            let text = template.render_partial();
            out.append(text.as_str());
            proof {
                assert(entries.take(i + 1).drop_last() =~= entries.take(i as int));
                assert(entries.take(i + 1).last() == entries[i as int]);
            }
            i += 1;
        }
        proof {
            assert(entries.take(i as int) =~= entries);
        }
        Ok(out)
    }
}

} // verus!
