//! A template that renders to a program, with the dependencies that the
//! program is built against.
//!
//! The library does not start processes. It says what is to be run
//! ([`ExecutableReference::script`]) and what the result of a run means
//! ([`RunOutcome::into_result`]); the caller does the running in between.

use vstd::prelude::*;
use vstd::string::StringExecFns;
use crate::dependency::{DependencySpec, DependencySpecView, parse_dependency};
use crate::error::{TemplateError, TemplateErrorView, text_result};
use crate::template::{Template, TemplateView};

verus! {

/// The manifest line of one dependency.
pub open spec fn dependency_line(d: DependencySpecView) -> Seq<char> {
    "//! "@ + d.name + " = \""@ + d.version_requirement + "\"\n"@
}

/// The manifest lines of `deps`, in their order.
pub open spec fn dependency_lines(deps: Seq<DependencySpecView>) -> Seq<char>
    decreases deps.len(),
{
    if deps.len() == 0 {
        Seq::empty()
    } else {
        dependency_lines(deps.drop_last()) + dependency_line(deps.last())
    }
}

/// The program file for `body`: the text itself where there are no
/// dependencies, else the text below a manifest that lists them.
pub open spec fn script_text(deps: Seq<DependencySpecView>, body: Seq<char>) -> Seq<char> {
    if deps.len() == 0 {
        body
    } else {
        "//! ```cargo\n//! [dependencies]\n"@ + dependency_lines(deps) + "//! ```\n\n"@ + body
    }
}

/// The mathematical content of an [`ExecutableReference`].
pub struct ExecutableReferenceView {
    pub template: TemplateView,
    pub dependencies: Seq<DependencySpecView>,
}

impl ExecutableReferenceView {
    /// The reference after `text` was offered as a dependency: appended
    /// where it describes one, dropped where it does not.
    pub open spec fn with_dependency(self, text: Seq<char>) -> ExecutableReferenceView {
        match parse_dependency(text) {
            Some(d) => ExecutableReferenceView {
                template: self.template,
                dependencies: self.dependencies.push(d),
            },
            None => self,
        }
    }

    /// The program file: the rendered text with its manifest, or the
    /// template's error where it cannot be rendered.
    pub open spec fn script(self) -> Result<Seq<char>, TemplateErrorView> {
        match self.template.render() {
            Ok(body) => Ok(script_text(self.dependencies, body)),
            Err(e) => Err(e),
        }
    }
}

/// One template and the dependencies of the program that it renders to, in
/// the order in which they were added.
pub struct ExecutableReference {
    template: Template,
    dependencies: Vec<DependencySpec>,
}

impl View for ExecutableReference {
    type V = ExecutableReferenceView;

    closed spec fn view(&self) -> ExecutableReferenceView {
        ExecutableReferenceView {
            template: self.template@,
            dependencies: Seq::new(
                self.dependencies@.len(),
                |i: int| self.dependencies@[i]@,
            ),
        }
    }
}

impl ExecutableReference {
    /// The template inside is well formed.
    pub closed spec fn inv(&self) -> bool {
        self.template.wf()
    }

    /// The reference is well formed: every function of the library gives and
    /// keeps this.
    pub open spec fn wf(&self) -> bool {
        &&& self.inv()
        &&& self@.template.consistent()
    }

    /// Wraps `template`, with no dependencies.
    pub fn new(template: Template) -> (r: ExecutableReference)
        requires
            template.wf(),
        ensures
            r.wf(),
            r@.template == template@,
            r@.dependencies == Seq::<DependencySpecView>::empty(),
    {
        let r = ExecutableReference { template, dependencies: Vec::new() };
        assert(r@.dependencies =~= Seq::<DependencySpecView>::empty());
        r
    }

    /// Adds the dependency that `text` describes, written `name=version`.
    /// Text that describes none is dropped without notice.
    pub fn with_dependency(self, text: &str) -> (r: ExecutableReference)
        requires
            self.wf(),
        ensures
            r.wf(),
            r@ == self@.with_dependency(text@),
    {
        let mut r = self;
        match DependencySpec::parse(text) {
            Some(d) => {
                r.dependencies.push(d);
                assert(r@.dependencies =~= self@.dependencies.push(d@));
            },
            None => {},
        }
        r
    }

    /// The template.
    pub fn inner(&self) -> (t: &Template)
        requires
            self.wf(),
        ensures
            t.wf(),
            t@ == self@.template,
    {
        &self.template
    }

    /// The number of dependencies.
    pub fn dependency_count(&self) -> (n: usize)
        ensures
            n == self@.dependencies.len(),
    {
        self.dependencies.len()
    }

    /// The dependency at index `i`.
    pub fn dependency(&self, i: usize) -> (d: &DependencySpec)
        requires
            i < self@.dependencies.len(),
        ensures
            d@ == self@.dependencies[i as int],
    {
        &self.dependencies[i]
    }

    /// Binds `value` to the placeholder `name` of the template, as
    /// [`Template::set`] does.
    pub fn set(&mut self, name: &str, value: &str) -> (r: Result<(), TemplateError>)
        requires
            old(self).wf(),
        ensures
            final(self).wf(),
            final(self)@.dependencies == old(self)@.dependencies,
            old(self)@.template.declares(name@) ==> r is Ok && final(self)@.template == old(
                self,
            )@.template.bind(name@, value@),
            !old(self)@.template.declares(name@) ==> final(self)@ == old(self)@ && (r matches Err(
                e,
            ) && e@ == TemplateErrorView::UnknownPlaceholder { name: name@ }),
    {
        self.template.set(name, value)
    }

    /// Renders the template, as [`Template::render`] does.
    pub fn render(&self) -> (r: Result<String, TemplateError>)
        requires
            self.wf(),
        ensures
            text_result(r) == self@.template.render(),
    {
        self.template.render()
    }

    /// The text of the program file. Where the template cannot be rendered
    /// this is the template's error, and there is nothing to run.
    pub fn script(&self) -> (r: Result<String, TemplateError>)
        requires
            self.wf(),
        ensures
            text_result(r) == self@.script(),
    {
        let body = match self.template.render() {
            Ok(body) => body,
            Err(e) => {
                return Err(e);
            },
        };
        if self.dependencies.len() == 0 {
            return Ok(body);
        }
        let mut out = String::from_str("//! ```cargo\n//! [dependencies]\n");
        let mut i: usize = 0;
        let ghost deps = self@.dependencies;
        let ghost head = out@;
        assert(deps.take(0) =~= Seq::<DependencySpecView>::empty());
        assert(out@ =~= head + dependency_lines(deps.take(0)));
        while i < self.dependencies.len()
            invariant
                i <= self.dependencies.len(),
                deps == self@.dependencies,
                deps.len() == self.dependencies.len(),
                out@ == head + dependency_lines(deps.take(i as int)),
            decreases self.dependencies.len() - i,
        {
            let ghost before = out@;
            let d = &self.dependencies[i];
            out.append("//! ");
            out.append(d.name());
            out.append(" = \"");
            out.append(d.version_requirement());
            out.append("\"\n");
            proof {
                assert(deps.take(i + 1).drop_last() =~= deps.take(i as int));
                assert(deps.take(i + 1).last() == d@);
                assert(out@ =~= before + dependency_line(d@));
                assert(out@ =~= head + dependency_lines(deps.take(i + 1)));
            }
            i += 1;
        }
        out.append("//! ```\n\n");
        out.append(body.as_str());
        proof {
            assert(deps.take(i as int) =~= deps);
            assert(out@ =~= script_text(deps, body@));
        }
        Ok(out)
    }
}

/// The mathematical content of a [`RunOutcome`].
pub enum RunOutcomeView {
    Exited { code: Option<i32>, stdout: Seq<char>, stderr: Seq<char> },
    NotStarted { diagnostic: Seq<char> },
    Cancelled,
}

/// What came of building and running a program file.
#[derive(Debug, Clone, PartialEq, Eq)]
pub enum RunOutcome {
    /// The toolchain ran to its end. `code` is its exit status, absent where
    /// it was ended from outside; the two texts are what it wrote to its
    /// standard output and standard error.
    Exited { code: Option<i32>, stdout: String, stderr: String },
    /// The program file could not be written, or the toolchain could not be
    /// started.
    NotStarted { diagnostic: String },
    /// The run was stopped before it ended, for example on a timeout.
    Cancelled,
}

impl View for RunOutcome {
    type V = RunOutcomeView;

    open spec fn view(&self) -> RunOutcomeView {
        match *self {
            RunOutcome::Exited { code, stdout, stderr } => RunOutcomeView::Exited {
                code,
                stdout: stdout@,
                stderr: stderr@,
            },
            RunOutcome::NotStarted { diagnostic } => RunOutcomeView::NotStarted {
                diagnostic: diagnostic@,
            },
            RunOutcome::Cancelled => RunOutcomeView::Cancelled,
        }
    }
}

impl RunOutcomeView {
    /// What the caller of an execution gets: the standard output of a run
    /// that ended with status 0, and else an error with the diagnostic. A
    /// cancelled run gives no output.
    pub open spec fn result(self) -> Result<Seq<char>, TemplateErrorView> {
        match self {
            RunOutcomeView::Exited { code, stdout, stderr } => if code == Some(0i32) {
                Ok(stdout)
            } else {
                Err(TemplateErrorView::Execution { diagnostic: stderr })
            },
            RunOutcomeView::NotStarted { diagnostic } => Err(
                TemplateErrorView::Execution { diagnostic },
            ),
            RunOutcomeView::Cancelled => Err(
                TemplateErrorView::Execution { diagnostic: "execution was cancelled"@ },
            ),
        }
    }
}

impl RunOutcome {
    /// Turns the outcome of a run into the result of the execution.
    pub fn into_result(self) -> (r: Result<String, TemplateError>)
        ensures
            text_result(r) == self@.result(),
    {
        match self {
            RunOutcome::Exited { code, stdout, stderr } => {
                let succeeded = match code {
                    Some(status) => status == 0,
                    None => false,
                };
                if succeeded {
                    Ok(stdout)
                } else {
                    Err(TemplateError::Execution { diagnostic: stderr })
                }
            },
            RunOutcome::NotStarted { diagnostic } => Err(TemplateError::Execution { diagnostic }),
            RunOutcome::Cancelled => Err(
                TemplateError::Execution {
                    diagnostic: String::from_str("execution was cancelled"),
                },
            ),
        }
    }
}

} // verus!
