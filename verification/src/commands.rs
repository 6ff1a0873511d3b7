//! What the commands of the template tool compute, from the texts and
//! arguments that it has read to the text that it writes.

use vstd::prelude::*;
use vstd::string::StringExecFns;
use crate::assembler::{Assembler, AssemblerView};
use crate::error::{TemplateError, TemplateErrorView, text_result, unit_result};
use crate::executable::{ExecutableReference, ExecutableReferenceView};
use crate::pairs::{KeyValues, key_values, parse_key_values, texts};
use crate::template::{Template, TemplateView};

verus! {

/// Where the text of a new template is taken from.
#[derive(Debug, Clone, Copy, PartialEq, Eq)]
pub enum TemplateSource {
    /// From the text given on the command line.
    Content,
    /// From the file named on the command line.
    File,
}

/// The source of a new template: the one of the two that was given. Both or
/// neither is a parse error.
pub open spec fn source_choice(has_content: bool, has_file: bool) -> Result<
    TemplateSource,
    TemplateErrorView,
> {
    if has_content && has_file {
        Err(TemplateErrorView::Parse { message: "Cannot provide both content and file"@ })
    } else if has_content {
        Ok(TemplateSource::Content)
    } else if has_file {
        Ok(TemplateSource::File)
    } else {
        Err(TemplateErrorView::Parse { message: "Either content or file must be provided"@ })
    }
}

/// Decides where the text of a new template is taken from.
pub fn select_source(has_content: bool, has_file: bool) -> (r: Result<
    TemplateSource,
    TemplateError,
>)
    ensures
        match r {
            Ok(source) => source_choice(has_content, has_file) == Ok::<
                TemplateSource,
                TemplateErrorView,
            >(source),
            Err(e) => source_choice(has_content, has_file) == Err::<
                TemplateSource,
                TemplateErrorView,
            >(e@),
        },
{
    if has_content && has_file {
        Err(
            TemplateError::Parse {
                message: String::from_str("Cannot provide both content and file"),
            },
        )
    } else if has_content {
        Ok(TemplateSource::Content)
    } else if has_file {
        Ok(TemplateSource::File)
    } else {
        Err(
            TemplateError::Parse {
                message: String::from_str("Either content or file must be provided"),
            },
        )
    }
}

/// A template made from `text`, with nothing bound.
pub open spec fn fresh_template(text: Seq<char>) -> TemplateView {
    TemplateView { source: text, bindings: Map::empty() }
}

/// An executable reference to a fresh template, without dependencies.
pub open spec fn fresh_entry(text: Seq<char>) -> ExecutableReferenceView {
    ExecutableReferenceView { template: fresh_template(text), dependencies: Seq::empty() }
}

/// Binding the pairs from index `from` on, in their order, up to the first
/// one whose key the template does not declare: the template as it is then,
/// and the error for that key if there is one.
pub open spec fn apply_pairs(t: TemplateView, pairs: Seq<(Seq<char>, Seq<char>)>, from: int) -> (
    TemplateView,
    Result<(), TemplateErrorView>,
)
    decreases pairs.len() - from,
{
    if 0 <= from < pairs.len() {
        if t.declares(pairs[from].0) {
            apply_pairs(t.bind(pairs[from].0, pairs[from].1), pairs, from + 1)
        } else {
            (t, Err(TemplateErrorView::UnknownPlaceholder { name: pairs[from].0 }))
        }
    } else {
        (t, Ok(()))
    }
}

/// Binds each of `values` in `template`, in their order. The first key that
/// the template does not declare ends the work with an error; the values
/// before it stay bound.
pub fn apply_template_values(template: &mut Template, values: &KeyValues) -> (r: Result<
    (),
    TemplateError,
>)
    requires
        old(template).wf(),
    ensures
        final(template).wf(),
        (final(template)@, unit_result(r)) == apply_pairs(old(template)@, values@, 0),
{
    let ghost start = template@;
    let mut i: usize = 0;
    while i < values.len()
        invariant
            template.wf(),
            i <= values@.len(),
            start == old(template)@,
            apply_pairs(start, values@, 0) == apply_pairs(template@, values@, i as int),
        decreases values@.len() - i,
    {
        match template.set(values.key(i), values.value(i)) {
            Ok(()) => {},
            Err(e) => {
                return Err(e);
            },
        }
        i += 1;
    }
    Ok(())
}

/// What rendering `text` under the arguments `args` gives.
pub open spec fn render_with(text: Seq<char>, args: Seq<Seq<char>>) -> Result<
    Seq<char>,
    TemplateErrorView,
> {
    let (bound, applied) = apply_pairs(fresh_template(text), key_values(args), 0);
    match applied {
        Ok(_) => bound.render(),
        Err(e) => Err(e),
    }
}

/// Renders the template text `text` with the `key=value` arguments
/// `values`.
pub fn render_with_values(text: &str, values: &[String]) -> (r: Result<String, TemplateError>)
    ensures
        text_result(r) == render_with(text@, texts(values@)),
{
    let mut template = Template::from_text(text);
    assert(template@ == fresh_template(text@));
    let pairs = parse_key_values(values);
    match apply_template_values(&mut template, &pairs) {
        Ok(()) => {},
        Err(e) => {
            return Err(e);
        },
    }
    template.render()
}

/// `entry` after each of `specs` was offered as a dependency, in their
/// order.
pub open spec fn with_dependencies(
    entry: ExecutableReferenceView,
    specs: Seq<Seq<char>>,
) -> ExecutableReferenceView
    decreases specs.len(),
{
    if specs.len() == 0 {
        entry
    } else {
        with_dependencies(entry, specs.drop_last()).with_dependency(specs.last())
    }
}

/// The program file for `text` under the arguments `args`, built against
/// the dependencies `specs`.
pub open spec fn script_with(
    text: Seq<char>,
    args: Seq<Seq<char>>,
    specs: Seq<Seq<char>>,
) -> Result<Seq<char>, TemplateErrorView> {
    let (bound, applied) = apply_pairs(fresh_template(text), key_values(args), 0);
    match applied {
        Ok(_) => with_dependencies(
            ExecutableReferenceView { template: bound, dependencies: Seq::empty() },
            specs,
        ).script(),
        Err(e) => Err(e),
    }
}

/// Makes the program file for the template text `text`: binds the
/// `key=value` arguments `values`, adds the dependencies `dependencies`,
/// each written `name=version`, and renders.
pub fn script_with_values(text: &str, values: &[String], dependencies: &[String]) -> (r: Result<
    String,
    TemplateError,
>)
    ensures
        text_result(r) == script_with(text@, texts(values@), texts(dependencies@)),
{
    let mut template = Template::from_text(text);
    assert(template@ == fresh_template(text@));
    let pairs = parse_key_values(values);
    match apply_template_values(&mut template, &pairs) {
        Ok(()) => {},
        Err(e) => {
            return Err(e);
        },
    }
    let mut reference = ExecutableReference::new(template);
    let ghost start = reference@;
    let ghost specs = texts(dependencies@);
    let mut i: usize = 0;
    assert(specs.take(0) =~= Seq::<Seq<char>>::empty());
    while i < dependencies.len()
        invariant
            i <= dependencies.len(),
            specs == texts(dependencies@),
            reference.wf(),
            reference@ == with_dependencies(start, specs.take(i as int)),
        decreases dependencies.len() - i,
    {
        proof {
            assert(specs.take(i + 1).drop_last() =~= specs.take(i as int));
            assert(specs.take(i + 1).last() == dependencies@[i as int]@);
        }
        reference = reference.with_dependency(dependencies[i].as_str());
        i += 1;
    }
    assert(specs.take(i as int) =~= specs);
    reference.script()
}

/// The assembler that holds a fresh entry for each of `sources`, in their
/// order.
pub open spec fn assembled(sources: Seq<Seq<char>>) -> AssemblerView
    decreases sources.len(),
{
    if sources.len() == 0 {
        AssemblerView { entries: Seq::empty(), globals: Seq::empty() }
    } else {
        assembled(sources.drop_last()).add(fresh_entry(sources.last()))
    }
}

/// Setting the globals from index `from` on, in their order, up to the
/// first one that no entry declares: the assembler as it is then, and the
/// error for that name if there is one.
pub open spec fn set_globals(a: AssemblerView, pairs: Seq<(Seq<char>, Seq<char>)>, from: int) -> (
    AssemblerView,
    Result<(), TemplateErrorView>,
)
    decreases pairs.len() - from,
{
    if 0 <= from < pairs.len() {
        if a.declares(pairs[from].0) {
            set_globals(a.set_global(pairs[from].0, pairs[from].1), pairs, from + 1)
        } else {
            (a, Err(TemplateErrorView::UnknownPlaceholder { name: pairs[from].0 }))
        }
    } else {
        (a, Ok(()))
    }
}

/// What assembling `sources` under the arguments `args` gives.
pub open spec fn assemble_with(sources: Seq<Seq<char>>, args: Seq<Seq<char>>) -> Result<
    Seq<char>,
    TemplateErrorView,
> {
    let (set, applied) = set_globals(assembled(sources), key_values(args), 0);
    match applied {
        Ok(_) => set.render_all(),
        Err(e) => Err(e),
    }
}

/// Combines the template texts `sources` into one text: sets each of the
/// `key=value` arguments `values` as a global, and renders the templates in
/// their order with nothing between them.
pub fn assemble_with_values(sources: &[String], values: &[String]) -> (r: Result<
    String,
    TemplateError,
>)
    ensures
        text_result(r) == assemble_with(texts(sources@), texts(values@)),
{
    let mut assembler = Assembler::new();
    let ghost given = texts(sources@);
    let mut i: usize = 0;
    assert(given.take(0) =~= Seq::<Seq<char>>::empty());
    assert(assembler@ == assembled(given.take(0)));
    while i < sources.len()
        invariant
            i <= sources.len(),
            given == texts(sources@),
            assembler.wf(),
            assembler@ == assembled(given.take(i as int)),
        decreases sources.len() - i,
    {
        proof {
            assert(given.take(i + 1).drop_last() =~= given.take(i as int));
            assert(given.take(i + 1).last() == sources@[i as int]@);
        }
        let template = Template::from_text(sources[i].as_str());
        assert(template@ == fresh_template(sources@[i as int]@));
        let entry = ExecutableReference::new(template);
        assert(entry@ == fresh_entry(sources@[i as int]@));
        assembler.add_template(entry);
        i += 1;
    }
    assert(given.take(i as int) =~= given);
    let pairs = parse_key_values(values);
    let ghost start = assembler@;
    let mut g: usize = 0;
    while g < pairs.len()
        invariant
            assembler.wf(),
            g <= pairs@.len(),
            start == assembled(texts(sources@)),
            pairs@ == key_values(texts(values@)),
            set_globals(start, pairs@, 0) == set_globals(assembler@, pairs@, g as int),
        decreases pairs@.len() - g,
    {
        match assembler.set_global(pairs.key(g), pairs.value(g)) {
            Ok(()) => {},
            Err(e) => {
                return Err(e);
            },
        }
        g += 1;
    }
    assembler.render_all()
}

} // verus!
