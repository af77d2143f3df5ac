//! An executable reference to a template: the template plus the dependency
//! declarations an external script runner should see.
//!
//! The engine only assembles the text handed to the runner; launching the
//! runner, writing the transient file and capturing its output are the
//! runner's side of the boundary and live outside the core.

use vstd::prelude::*;

use crate::scan::views_of;
use crate::template::Template;

verus! {

/// One dependency declaration block, as the external script runner expects
/// it ahead of the script body.
pub open spec fn dep_line(d: Seq<char>) -> Seq<char> {
    "//! ```cargo\n//! [dependencies]\n//! "@ + d + " \n//! ```\n"@
}

/// The dependency declaration blocks from position `i` on, concatenated in
/// declaration order.
pub open spec fn script_preamble(deps: Seq<Seq<char>>, i: int) -> Seq<char>
    decreases deps.len() - i,
{
    if i < 0 || i >= deps.len() {
        Seq::<char>::empty()
    } else {
        dep_line(deps[i]) + script_preamble(deps, i + 1)
    }
}

/// A template together with the ordered, opaque dependency declarations to
/// pass to the external script runner.
#[derive(Debug, Clone)]
pub struct TemplateRef {
    pub template: Template,
    pub dependencies: Vec<String>,
}

impl TemplateRef {
    /// The dependency declarations, in the order they were added.
    pub open spec fn deps_view(&self) -> Seq<Seq<char>> {
        views_of(self.dependencies@)
    }

    /// Wraps a template with an empty dependency list.
    pub fn new(template: Template) -> (r: TemplateRef)
        ensures
            r.template == template,
            r.deps_view().len() == 0,
    {
        TemplateRef { template, dependencies: Vec::new() }
    }

    /// Adds one opaque dependency declaration for the script runner.
    pub fn with_dependency(self, dependency: &str) -> (r: TemplateRef)
        ensures
            r.template == self.template,
            r.deps_view() == self.deps_view().push(dependency@),
    {
        let mut dependencies = self.dependencies;
        let ghost prev = dependencies@;
        dependencies.push(dependency.to_owned());
        proof {
            assert(views_of(dependencies@) =~= views_of(prev).push(dependency@));
        }
        TemplateRef { template: self.template, dependencies }
    }

    /// The full text for the external script runner: every dependency
    /// declaration block, in order, ahead of the rendered body.
    pub fn script_source(&self, rendered: &str) -> (r: String)
        ensures
            r@ == script_preamble(self.deps_view(), 0) + rendered@,
    {
        let mut out = String::new();
        let n = self.dependencies.len();
        let mut i: usize = 0;
        proof {
            assert(out@ + script_preamble(self.deps_view(), 0) =~= script_preamble(
                self.deps_view(),
                0,
            ));
        }
        while i < n
            invariant
                n == self.dependencies@.len(),
                i <= n,
                out@ + script_preamble(self.deps_view(), i as int) == script_preamble(
                    self.deps_view(),
                    0,
                ),
            decreases n - i,
        {
            out.append("//! ```cargo\n//! [dependencies]\n//! ");
            out.append(self.dependencies[i].as_str());
            out.append(" \n//! ```\n");
            proof {
                assert(out@ + script_preamble(self.deps_view(), i + 1) =~= script_preamble(
                    self.deps_view(),
                    0,
                ));
            }
            i = i + 1;
        }
        proof {
            assert(script_preamble(self.deps_view(), n as int) == Seq::<char>::empty());
            assert(out@ + Seq::<char>::empty() =~= out@);
        }
        out.append(rendered);
        out
    }
}

} // verus!
