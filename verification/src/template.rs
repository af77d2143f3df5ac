//! The template: a document, its frozen placeholder names, and their values.
//!
//! Construction scans the document once; from then on the key set never
//! grows or shrinks, only values change. A value slot is unbound while it
//! holds the empty string and bound once a caller supplies a non-empty
//! value. Rendering requires every slot to be bound and makes one
//! left-to-right pass over the original document: wherever a key's exact
//! marker starts, the key's value is emitted and the pass resumes after the
//! marker, never inside the emitted value, so substituted text is not
//! rescanned and no recursive expansion can occur.

use vstd::prelude::*;

use crate::errors::TemplateError;
use crate::scan::dedup_names;
use crate::scan::lemma_dedup_no_duplicates;
use crate::scan::lemma_dedup_same_names;
use crate::scan::raw_names;
use crate::scan::scan_placeholders;
use crate::scan::views_of;
use crate::subst::marker_seq;
use crate::subst::matches_at;
use crate::subst::occurs_at;
use crate::subst::replace_all_seq;

verus! {

/// The position of `name` among `keys`, first occurrence from `i` on, or
/// `-1` if it does not occur there.
pub open spec fn index_of_key(keys: Seq<Seq<char>>, name: Seq<char>, i: int) -> int
    decreases keys.len() - i,
{
    if i < 0 || i >= keys.len() {
        -1
    } else if keys[i] == name {
        i
    } else {
        index_of_key(keys, name, i + 1)
    }
}

/// What `index_of_key` finds: the first occurrence if any, and nothing when
/// it reports none.
pub proof fn lemma_index_of_key(keys: Seq<Seq<char>>, name: Seq<char>, i: int)
    requires
        0 <= i <= keys.len(),
    ensures
        ({
            let k = index_of_key(keys, name, i);
            &&& k == -1 ==> forall|m: int| i <= m < keys.len() ==> keys[m] != name
            &&& k != -1 ==> i <= k < keys.len() && keys[k] == name && (forall|m: int|
                i <= m < k ==> keys[m] != name)
        }),
    decreases keys.len() - i,
{
    if i < keys.len() && keys[i] != name {
        lemma_index_of_key(keys, name, i + 1);
    }
}

/// The position of the first unbound (empty) value from `i` on, or `-1` if
/// every remaining value is bound.
pub open spec fn first_unbound(vals: Seq<Seq<char>>, i: int) -> int
    decreases vals.len() - i,
{
    if i < 0 || i >= vals.len() {
        -1
    } else if vals[i].len() == 0 {
        i
    } else {
        first_unbound(vals, i + 1)
    }
}

/// The first key, from position `from` of `keys` on, whose marker occurs in
/// `doc` at position `i`, or `-1` if none does. Keys hold no `]`, so two
/// distinct keys' markers can never start at the same position and the
/// order of the search cannot matter.
pub open spec fn marker_key_at(doc: Seq<char>, keys: Seq<Seq<char>>, i: int, from: int) -> int
    decreases keys.len() - from,
{
    if from < 0 || from >= keys.len() {
        -1
    } else if occurs_at(doc, i, marker_seq(keys[from])) {
        from
    } else {
        marker_key_at(doc, keys, i, from + 1)
    }
}

/// What `marker_key_at` finds: the first key whose marker occurs at `i`, if
/// any key's marker does, and nothing otherwise.
pub proof fn lemma_marker_key_at(doc: Seq<char>, keys: Seq<Seq<char>>, i: int, from: int)
    requires
        0 <= from <= keys.len(),
    ensures
        ({
            let k = marker_key_at(doc, keys, i, from);
            &&& k == -1 ==> forall|m: int|
                from <= m < keys.len() ==> !occurs_at(doc, i, marker_seq(#[trigger] keys[m]))
            &&& k != -1 ==> from <= k < keys.len() && occurs_at(doc, i, marker_seq(keys[k])) && (
            forall|m: int|
                from <= m < k ==> !occurs_at(doc, i, marker_seq(#[trigger] keys[m])))
        }),
    decreases keys.len() - from,
{
    if from < keys.len() && !occurs_at(doc, i, marker_seq(keys[from])) {
        lemma_marker_key_at(doc, keys, i, from + 1);
    }
}

/// The text of a render: one left-to-right pass over the original document
/// from position `i` on. Where some key's exact marker starts, the key's
/// value is emitted and the pass resumes right after the marker — never
/// inside the emitted value, so substituted text is not rescanned and no
/// recursive expansion occurs. Everywhere else the document's character is
/// kept verbatim.
pub open spec fn render_at(
    doc: Seq<char>,
    keys: Seq<Seq<char>>,
    vals: Seq<Seq<char>>,
    i: int,
) -> Seq<char>
    decreases doc.len() - i,
    via render_at_decreases
{
    if i < 0 || i >= doc.len() {
        Seq::<char>::empty()
    } else {
        let k = marker_key_at(doc, keys, i, 0);
        if k == -1 {
            seq![doc[i]] + render_at(doc, keys, vals, i + 1)
        } else {
            vals[k] + render_at(doc, keys, vals, i + keys[k].len() + 4)
        }
    }
}

#[via_fn]
proof fn render_at_decreases(doc: Seq<char>, keys: Seq<Seq<char>>, vals: Seq<Seq<char>>, i: int) {
    if 0 <= i < doc.len() {
        let k = marker_key_at(doc, keys, i, 0);
        if k != -1 {
            lemma_marker_key_at(doc, keys, i, 0);
            assert(i + keys[k].len() + 4 <= doc.len());
        }
    }
}

/// A template document and its placeholder mapping. The key set is frozen
/// when the template is constructed; binding only overwrites values.
#[derive(Debug, Clone)]
pub struct Template {
    content: String,
    keys: Vec<String>,
    values: Vec<String>,
    path: Option<String>,
}

impl Template {
    /// The document text, captured at construction and never mutated.
    pub closed spec fn content_view(&self) -> Seq<char> {
        self.content@
    }

    /// The frozen placeholder names, in order of first occurrence.
    pub closed spec fn keys_view(&self) -> Seq<Seq<char>> {
        views_of(self.keys@)
    }

    /// The value slots, one per key; the empty string means unbound.
    pub closed spec fn values_view(&self) -> Seq<Seq<char>> {
        views_of(self.values@)
    }

    /// The source path, if the document was loaded from one.
    pub closed spec fn path_view(&self) -> Option<Seq<char>> {
        match self.path {
            Some(p) => Some(p@),
            None => None,
        }
    }

    /// The frozen-key-set invariant: the keys are exactly the distinct
    /// trimmed names scanned from the document, one value slot per key.
    pub open spec fn wf(&self) -> bool {
        &&& self.keys_view() == dedup_names(raw_names(self.content_view(), 0))
        &&& self.values_view().len() == self.keys_view().len()
    }

    /// The text a render of the current state produces.
    pub open spec fn rendered_view(&self) -> Seq<char> {
        render_at(self.content_view(), self.keys_view(), self.values_view(), 0)
    }

    /// Creates a template from a document string. Scanning never fails:
    /// text that does not match the exact marker delimiters is simply not a
    /// marker. The key set is exactly the distinct trimmed names of the
    /// document's markers, however often each repeats, and every slot
    /// starts unbound.
    pub fn new(content: &str) -> (r: Result<Template, TemplateError>)
        ensures
            r matches Ok(t) && t.wf() && t.content_view() == content@ && t.keys_view()
                == dedup_names(raw_names(content@, 0)) && t.keys_view().no_duplicates() && (forall|
                x: Seq<char>,
            |
                #![auto]
                t.keys_view().contains(x) <==> raw_names(content@, 0).contains(x)) && (forall|
                m: int,
            |
                0 <= m < t.values_view().len() ==> t.values_view()[m].len() == 0) && t.path_view()
                is None,
    {
        let keys = scan_placeholders(content);
        let klen = keys.len();
        let mut values: Vec<String> = Vec::new();
        let mut i: usize = 0;
        while i < klen
            invariant
                i <= klen,
                values@.len() == i,
                forall|m: int| 0 <= m < i ==> views_of(values@)[m].len() == 0,
            decreases klen - i,
        {
            let ghost prev = values@;
            values.push(String::new());
            proof {
                assert forall|m: int| 0 <= m < values@.len() implies views_of(values@)[m].len()
                    == 0 by {
                    if m < prev.len() {
                        assert(values@[m] == prev[m]);
                        assert(views_of(prev)[m].len() == 0);
                    } else {
                        assert(values@[m]@ == Seq::<char>::empty());
                    }
                }
            }
            i = i + 1;
        }
        let t = Template { content: content.to_owned(), keys, values, path: None };
        proof {
            lemma_dedup_same_names(raw_names(content@, 0));
            lemma_dedup_no_duplicates(raw_names(content@, 0));
        }
        Ok(t)
    }

    /// Records the path a loaded document came from; provenance only, read
    /// by nothing in the engine.
    pub fn with_source_path(self, path: &str) -> (r: Template)
        ensures
            r.content_view() == self.content_view(),
            r.keys_view() == self.keys_view(),
            r.values_view() == self.values_view(),
            r.path_view() == Some(path@),
            self.wf() ==> r.wf(),
    {
        Template {
            content: self.content,
            keys: self.keys,
            values: self.values,
            path: Some(path.to_owned()),
        }
    }

    /// The recorded source path, if any.
    pub fn source_path(&self) -> (r: Option<&str>)
        ensures
            match r {
                Some(p) => self.path_view() == Some(p@),
                None => self.path_view() is None,
            },
    {
        match &self.path {
            Some(p) => Some(p.as_str()),
            None => None,
        }
    }

    /// Whether `name` is one of the document's discovered placeholders.
    pub fn has_placeholder(&self, name: &str) -> (r: bool)
        ensures
            r == self.keys_view().contains(name@),
    {
        let p = name.to_owned();
        crate::scan::contains_string(&self.keys, &p)
    }

    /// Binds `value` to the placeholder `name`. Fails, mutating nothing,
    /// exactly when the document never declared `name`: a caller cannot
    /// invent new placeholders after construction.
    pub fn set(&mut self, placeholder: &str, value: &str) -> (r: Result<(), TemplateError>)
        requires
            old(self).wf(),
        ensures
            final(self).wf(),
            final(self).content_view() == old(self).content_view(),
            final(self).keys_view() == old(self).keys_view(),
            final(self).path_view() == old(self).path_view(),
            old(self).keys_view().contains(placeholder@) <==> index_of_key(
                old(self).keys_view(),
                placeholder@,
                0,
            ) != -1,
            ({
                let k = index_of_key(old(self).keys_view(), placeholder@, 0);
                if k == -1 {
                    &&& (r matches Err(TemplateError::MissingPlaceholder(n)) && n@ == placeholder@)
                    &&& final(self).values_view() == old(self).values_view()
                } else {
                    &&& r is Ok
                    &&& final(self).values_view() == old(self).values_view().update(k, value@)
                }
            }),
    {
        proof {
            lemma_index_of_key(old(self).keys_view(), placeholder@, 0);
        }
        let p = placeholder.to_owned();
        let klen = self.keys.len();
        let mut i: usize = 0;
        while i < klen
            invariant
                old(self).wf(),
                *self == *old(self),
                klen == self.keys@.len(),
                i <= klen,
                p@ == placeholder@,
                index_of_key(old(self).keys_view(), p@, 0) == index_of_key(
                    old(self).keys_view(),
                    p@,
                    i as int,
                ),
            decreases klen - i,
        {
            if self.keys[i].eq(&p) {
                proof {
                    assert(old(self).keys_view()[i as int] == p@);
                    assert(index_of_key(old(self).keys_view(), p@, i as int) == i);
                }
                let ghost old_values = self.values@;
                self.values[i] = value.to_owned();
                proof {
                    assert(views_of(self.values@) =~= views_of(old_values).update(
                        i as int,
                        value@,
                    ));
                }
                return Ok(());
            }
            proof {
                assert(old(self).keys_view()[i as int] != p@);
                assert(index_of_key(old(self).keys_view(), p@, i as int) == index_of_key(
                    old(self).keys_view(),
                    p@,
                    i + 1,
                ));
            }
            i = i + 1;
        }
        proof {
            assert(index_of_key(old(self).keys_view(), p@, klen as int) == -1);
        }
        Err(TemplateError::MissingPlaceholder(p))
    }

    /// The first key whose marker occurs in the document at position `i`,
    /// if any key's marker does.
    fn find_marker_key(&self, i: usize, n: usize) -> (r: Option<usize>)
        requires
            self.wf(),
            n == self.content_view().len(),
            i < n,
        ensures
            ({
                let k = marker_key_at(self.content_view(), self.keys_view(), i as int, 0);
                match r {
                    Some(f) => f == k && f < self.keys_view().len() && occurs_at(
                        self.content_view(),
                        i as int,
                        marker_seq(self.keys_view()[f as int]),
                    ),
                    None => k == -1,
                }
            }),
    {
        let klen = self.keys.len();
        let mut k: usize = 0;
        while k < klen
            invariant
                self.wf(),
                n == self.content_view().len(),
                i < n,
                klen == self.keys@.len(),
                k <= klen,
                marker_key_at(self.content_view(), self.keys_view(), i as int, 0)
                    == marker_key_at(self.content_view(), self.keys_view(), i as int, k as int),
            decreases klen - k,
        {
            let key = &self.keys[k];
            let pat = "@[".to_owned().concat(key.as_str()).concat("]@");
            let plen = pat.as_str().unicode_len();
            proof {
                reveal_strlit("@[");
                reveal_strlit("]@");
                assert(pat@ =~= marker_seq(self.keys_view()[k as int]));
            }
            if plen <= n - i && matches_at(self.content.as_str(), i, pat.as_str(), plen, n) {
                proof {
                    assert(marker_key_at(self.content_view(), self.keys_view(), i as int, k as int)
                        == k);
                }
                return Some(k);
            }
            proof {
                assert(!occurs_at(
                    self.content_view(),
                    i as int,
                    marker_seq(self.keys_view()[k as int]),
                ));
                assert(marker_key_at(self.content_view(), self.keys_view(), i as int, k as int)
                    == marker_key_at(self.content_view(), self.keys_view(), i as int, k + 1));
            }
            k = k + 1;
        }
        proof {
            assert(marker_key_at(self.content_view(), self.keys_view(), i as int, klen as int)
                == -1);
        }
        None
    }

    /// Renders the final text. Fails, naming the first such key, exactly
    /// when some placeholder is still unbound; no partial output is ever
    /// returned. On success the result is one pass over the document, with
    /// every key's marker occurrence replaced by that key's value and
    /// nothing substituted inside already-substituted text; the template
    /// itself is left untouched.
    pub fn render(&self) -> (r: Result<String, TemplateError>)
        requires
            self.wf(),
        ensures
            ({
                let k = first_unbound(self.values_view(), 0);
                if k == -1 {
                    r matches Ok(out) && out@ == self.rendered_view()
                } else {
                    r matches Err(TemplateError::MissingPlaceholder(n)) && n@
                        == self.keys_view()[k]
                }
            }),
    {
        let klen = self.keys.len();
        let mut idx: usize = 0;
        while idx < klen
            invariant
                self.wf(),
                klen == self.keys@.len(),
                idx <= klen,
                first_unbound(self.values_view(), 0) == first_unbound(
                    self.values_view(),
                    idx as int,
                ),
            decreases klen - idx,
        {
            if self.values[idx].as_str().is_empty() {
                proof {
                    assert(self.values_view()[idx as int].len() == 0);
                    assert(first_unbound(self.values_view(), idx as int) == idx);
                }
                return Err(TemplateError::MissingPlaceholder(self.keys[idx].clone()));
            }
            proof {
                assert(self.values_view()[idx as int].len() != 0);
                assert(first_unbound(self.values_view(), idx as int) == first_unbound(
                    self.values_view(),
                    idx + 1,
                ));
            }
            idx = idx + 1;
        }
        proof {
            assert(first_unbound(self.values_view(), klen as int) == -1);
        }
        let n = self.content.as_str().unicode_len();
        let mut out = String::new();
        let mut i: usize = 0;
        proof {
            assert(out@ + self.rendered_view() =~= self.rendered_view());
        }
        while i < n
            invariant
                self.wf(),
                n == self.content_view().len(),
                i <= n,
                out@ + render_at(self.content_view(), self.keys_view(), self.values_view(), i as int)
                    == self.rendered_view(),
            decreases n - i,
        {
            let ghost rest: Seq<char>;
            match self.find_marker_key(i, n) {
                Some(k) => {
                    proof {
                        assert(marker_seq(self.keys_view()[k as int]).len()
                            == self.keys_view()[k as int].len() + 4);
                        rest = render_at(
                            self.content_view(),
                            self.keys_view(),
                            self.values_view(),
                            i + self.keys_view()[k as int].len() + 4,
                        );
                        assert(render_at(
                            self.content_view(),
                            self.keys_view(),
                            self.values_view(),
                            i as int,
                        ) == self.values_view()[k as int] + rest);
                    }
                    let val = &self.values[k];
                    out.append(val.as_str());
                    proof {
                        assert(out@ + rest =~= self.rendered_view());
                    }
                    let key_len = self.keys[k].as_str().unicode_len();
                    i = i + key_len + 4;
                },
                None => {
                    proof {
                        rest = render_at(
                            self.content_view(),
                            self.keys_view(),
                            self.values_view(),
                            i + 1,
                        );
                        assert(render_at(
                            self.content_view(),
                            self.keys_view(),
                            self.values_view(),
                            i as int,
                        ) == seq![self.content_view()[i as int]] + rest);
                    }
                    let c = self.content.as_str().substring_char(i, i + 1);
                    proof {
                        assert(c@ =~= seq![self.content_view()[i as int]]);
                    }
                    out.append(c);
                    proof {
                        assert(out@ + rest =~= self.rendered_view());
                    }
                    i = i + 1;
                },
            }
        }
        proof {
            assert(render_at(self.content_view(), self.keys_view(), self.values_view(), n as int)
                == Seq::<char>::empty());
            assert(out@ + Seq::<char>::empty() =~= out@);
        }
        Ok(out)
    }
}

/// Rendering is read-only and pure: two renders of the same template state
/// agree on their text, so rendering twice without an intervening bind is
/// idempotent.
pub proof fn lemma_render_deterministic(t: Template, r1: Seq<char>, r2: Seq<char>)
    requires
        r1 == t.rendered_view(),
        r2 == t.rendered_view(),
    ensures
        r1 == r2,
{
}

proof fn lemma_render_at_no_keys(doc: Seq<char>, keys: Seq<Seq<char>>, vals: Seq<Seq<char>>, i: int)
    requires
        keys.len() == 0,
        0 <= i <= doc.len(),
    ensures
        render_at(doc, keys, vals, i) == doc.subrange(i, doc.len() as int),
    decreases doc.len() - i,
{
    if i >= doc.len() {
        assert(doc.subrange(i, doc.len() as int) =~= Seq::<char>::empty());
    } else {
        assert(marker_key_at(doc, keys, i, 0) == -1);
        lemma_render_at_no_keys(doc, keys, vals, i + 1);
        assert(seq![doc[i]] + doc.subrange(i + 1, doc.len() as int) =~= doc.subrange(
            i,
            doc.len() as int,
        ));
    }
}

/// A document that declares no placeholder renders to itself, verbatim.
pub proof fn lemma_render_no_placeholders(t: Template)
    requires
        t.keys_view().len() == 0,
    ensures
        t.rendered_view() == t.content_view(),
{
    lemma_render_at_no_keys(t.content_view(), t.keys_view(), t.values_view(), 0);
    assert(t.content_view().subrange(0, t.content_view().len() as int) =~= t.content_view());
}

proof fn lemma_render_at_single_key(
    doc: Seq<char>,
    keys: Seq<Seq<char>>,
    vals: Seq<Seq<char>>,
    i: int,
)
    requires
        keys.len() == 1,
        vals.len() == 1,
        0 <= i <= doc.len(),
    ensures
        render_at(doc, keys, vals, i) == replace_all_seq(
            doc.subrange(i, doc.len() as int),
            marker_seq(keys[0]),
            vals[0],
        ),
    decreases doc.len() - i,
{
    let pat = marker_seq(keys[0]);
    let suffix = doc.subrange(i, doc.len() as int);
    assert(pat.len() == keys[0].len() + 4);
    if i >= doc.len() {
        assert(suffix =~= Seq::<char>::empty());
    } else if occurs_at(doc, i, pat) {
        assert(marker_key_at(doc, keys, i, 0) == 0);
        assert(suffix.subrange(0, pat.len() as int) =~= doc.subrange(i, i + pat.len()));
        assert(occurs_at(suffix, 0, pat));
        lemma_render_at_single_key(doc, keys, vals, i + pat.len());
        assert(suffix.subrange(pat.len() as int, suffix.len() as int) =~= doc.subrange(
            i + pat.len(),
            doc.len() as int,
        ));
    } else {
        assert(marker_key_at(doc, keys, i, 1) == -1);
        assert(marker_key_at(doc, keys, i, 0) == -1);
        if i + pat.len() <= doc.len() {
            assert(suffix.subrange(0, pat.len() as int) =~= doc.subrange(i, i + pat.len()));
        }
        assert(!occurs_at(suffix, 0, pat));
        lemma_render_at_single_key(doc, keys, vals, i + 1);
        assert(suffix[0] == doc[i]);
        assert(suffix.subrange(1, suffix.len() as int) =~= doc.subrange(i + 1, doc.len() as int));
    }
}

/// Round trip for a single-placeholder document: once its one placeholder
/// is bound, the render is the document with every occurrence of the
/// placeholder's marker replaced by the bound value, all other text kept
/// verbatim.
pub proof fn lemma_render_single_placeholder(t: Template)
    requires
        t.wf(),
        t.keys_view().len() == 1,
        t.values_view()[0].len() > 0,
    ensures
        t.rendered_view() == replace_all_seq(
            t.content_view(),
            marker_seq(t.keys_view()[0]),
            t.values_view()[0],
        ),
{
    lemma_render_at_single_key(t.content_view(), t.keys_view(), t.values_view(), 0);
    assert(t.content_view().subrange(0, t.content_view().len() as int) =~= t.content_view());
}

} // verus!
