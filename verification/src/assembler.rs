//! The aggregator: an ordered collection of templates with batch operations.
//!
//! Binding through the aggregator reaches every member template that
//! declares the name and silently skips the rest; rendering concatenates
//! each member's output, in insertion order, each followed by one newline,
//! and fails fast on the first member that cannot render.

use vstd::prelude::*;

use crate::errors::TemplateError;
use crate::template::first_unbound;
use crate::template::index_of_key;
use crate::template::lemma_index_of_key;
use crate::template::Template;

verus! {

/// The position of the first template from `i` on that still has an
/// unbound placeholder, or `-1` if every remaining one is fully bound.
pub open spec fn first_unready(ts: Seq<Template>, i: int) -> int
    decreases ts.len() - i,
{
    if i < 0 || i >= ts.len() {
        -1
    } else if first_unbound(ts[i].values_view(), 0) != -1 {
        i
    } else {
        first_unready(ts, i + 1)
    }
}

/// The concatenation of the templates' rendered texts from `i` on, each
/// followed by a single newline.
pub open spec fn concat_rendered(ts: Seq<Template>, i: int) -> Seq<char>
    decreases ts.len() - i,
{
    if i < 0 || i >= ts.len() {
        Seq::<char>::empty()
    } else {
        ts[i].rendered_view() + seq!['\n'] + concat_rendered(ts, i + 1)
    }
}

/// How one broadcast bind leaves one member template: document, key set and
/// provenance untouched; the value slot of `name` overwritten with `val`
/// where the template declares `name`, and the whole template untouched
/// where it does not.
pub open spec fn globally_set(t0: Template, t1: Template, name: Seq<char>, val: Seq<char>) -> bool {
    &&& t1.content_view() == t0.content_view()
    &&& t1.keys_view() == t0.keys_view()
    &&& t1.path_view() == t0.path_view()
    &&& (t0.keys_view().contains(name) ==> t1.values_view() == t0.values_view().update(
        index_of_key(t0.keys_view(), name, 0),
        val,
    ))
    &&& (!t0.keys_view().contains(name) ==> t1 == t0)
}

/// An ordered, exclusively owned collection of templates.
#[derive(Debug)]
pub struct TemplateAssembler {
    templates: Vec<Template>,
}

impl TemplateAssembler {
    /// The owned templates, in insertion order.
    pub closed spec fn templates_view(&self) -> Seq<Template> {
        self.templates@
    }

    /// Every owned template satisfies the template invariant.
    pub open spec fn wf(&self) -> bool {
        forall|i: int|
            0 <= i < self.templates_view().len() ==> (#[trigger] self.templates_view()[i]).wf()
    }

    /// Creates an empty assembler.
    pub fn new() -> (r: TemplateAssembler)
        ensures
            r.wf(),
            r.templates_view().len() == 0,
    {
        TemplateAssembler { templates: Vec::new() }
    }

    /// Appends a template. No validation: duplicate documents and
    /// conflicting key sets are both permitted.
    pub fn add_template(&mut self, template: Template)
        requires
            old(self).wf(),
            template.wf(),
        ensures
            final(self).wf(),
            final(self).templates_view() == old(self).templates_view().push(template),
    {
        self.templates.push(template);
        proof {
            assert forall|i: int| 0 <= i < self.templates_view().len() implies (
            #[trigger] self.templates_view()[i]).wf() by {
                if i < old(self).templates_view().len() {
                    assert(self.templates_view()[i] == old(self).templates_view()[i]);
                } else {
                    assert(self.templates_view()[i] == template);
                }
            }
        }
    }

    /// Binds `value` to `placeholder` in every owned template that declares
    /// that name; templates without it are skipped, not an error. The
    /// operation never fails under this contract — presence is checked
    /// before each member bind — but keeps the failure channel of a bind.
    pub fn set_global(&mut self, placeholder: &str, value: &str) -> (r: Result<
        (),
        TemplateError,
    >)
        requires
            old(self).wf(),
        ensures
            final(self).wf(),
            r is Ok,
            final(self).templates_view().len() == old(self).templates_view().len(),
            forall|m: int|
                0 <= m < old(self).templates_view().len() ==> globally_set(
                    old(self).templates_view()[m],
                    #[trigger] final(self).templates_view()[m],
                    placeholder@,
                    value@,
                ),
    {
        let n = self.templates.len();
        let mut j: usize = 0;
        while j < n
            invariant
                old(self).wf(),
                n == self.templates@.len(),
                n == old(self).templates@.len(),
                j <= n,
                forall|m: int|
                    j <= m < n ==> #[trigger] self.templates@[m] == old(self).templates@[m],
                forall|m: int|
                    0 <= m < j ==> globally_set(
                        old(self).templates@[m],
                        #[trigger] self.templates@[m],
                        placeholder@,
                        value@,
                    ),
                forall|m: int| 0 <= m < n ==> (#[trigger] self.templates@[m]).wf(),
            decreases n - j,
        {
            let owned = self.templates[j].has_placeholder(placeholder);
            if owned {
                proof {
                    lemma_index_of_key(self.templates@[j as int].keys_view(), placeholder@, 0);
                }
                let t = &mut self.templates[j];
                match t.set(placeholder, value) {
                    Ok(u) => u,
                    Err(e) => {
                        proof {
                            assert(false);
                        }
                        return Err(e);
                    },
                }
            }
            j = j + 1;
        }
        Ok(())
    }

    /// Renders every owned template in insertion order and concatenates the
    /// results, each followed by one newline. Fails on the first template
    /// that still has an unbound placeholder, naming that placeholder, and
    /// returns no partial concatenation.
    pub fn render_all(&self) -> (r: Result<String, TemplateError>)
        requires
            self.wf(),
        ensures
            ({
                let j = first_unready(self.templates_view(), 0);
                if j == -1 {
                    r matches Ok(out) && out@ == concat_rendered(self.templates_view(), 0)
                } else {
                    r matches Err(TemplateError::MissingPlaceholder(n)) && n@
                        == self.templates_view()[j].keys_view()[first_unbound(
                        self.templates_view()[j].values_view(),
                        0,
                    )]
                }
            }),
    {
        let mut out = String::new();
        let n = self.templates.len();
        let mut j: usize = 0;
        proof {
            assert(out@ + concat_rendered(self.templates_view(), 0) =~= concat_rendered(
                self.templates_view(),
                0,
            ));
        }
        while j < n
            invariant
                self.wf(),
                n == self.templates@.len(),
                j <= n,
                first_unready(self.templates_view(), 0) == first_unready(
                    self.templates_view(),
                    j as int,
                ),
                out@ + concat_rendered(self.templates_view(), j as int) == concat_rendered(
                    self.templates_view(),
                    0,
                ),
            decreases n - j,
        {
            let piece = match self.templates[j].render() {
                Ok(piece) => piece,
                Err(e) => {
                    proof {
                        assert(first_unready(self.templates_view(), j as int) == j);
                    }
                    return Err(e);
                },
            };
            out.append(piece.as_str());
            out.append("\n");
            proof {
                reveal_strlit("\n");
                assert("\n"@ =~= seq!['\n']);
                assert(first_unready(self.templates_view(), j as int) == first_unready(
                    self.templates_view(),
                    j + 1,
                ));
                assert(out@ + concat_rendered(self.templates_view(), j + 1) =~= concat_rendered(
                    self.templates_view(),
                    0,
                ));
            }
            j = j + 1;
        }
        proof {
            assert(concat_rendered(self.templates_view(), n as int)
                == Seq::<char>::empty());
            assert(out@ + Seq::<char>::empty() =~= out@);
        }
        Ok(out)
    }
}

} // verus!
