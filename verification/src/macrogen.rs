//! Cross-language tables and the source artifact.
//!
//! [`Tables::build`] folds every registered language into one table
//! per distinct source template, validating that each translation has
//! exactly as many `{}` placeholders as its source template.
//! [`Tables::render`] is the dispatch: language code in, substituted
//! string out, falling back to the source template for unknown codes
//! or untranslated entries. [`emit`] prints the tables as a source
//! artifact of one dispatch function per template.

use vstd::prelude::*;
use crate::chars::{chars_eq, clone_chars, chars_to_string};
use crate::error::{ValidationError, ValidationErrorV};
use crate::lang::{Lang, LangV, lang_views};
use crate::parser::{EntryV, raw_views};
use crate::template::ph_count;
use crate::chars::{dec_rep, push_dec};

verus! {

/// Mathematical model of a [`Template`].
pub struct TemplateV {
    pub src: Seq<char>,
    pub count: nat,
    pub pairs: Seq<(Seq<char>, Seq<char>)>,
}

/// One distinct source template: its text, its placeholder count, and
/// the `(language code, translated template)` pairs collected for it,
/// in registration order.
#[derive(Debug)]
pub struct Template {
    pub src: Vec<char>,
    pub count: usize,
    pub pairs: Vec<(Vec<char>, Vec<char>)>,
}

impl View for Template {
    type V = TemplateV;

    open spec fn view(&self) -> TemplateV {
        TemplateV { src: self.src@, count: self.count as nat, pairs: raw_views(self.pairs@) }
    }
}

/// The views of a vector of templates.
pub open spec fn tmpl_views(s: Seq<Template>) -> Seq<TemplateV> {
    s.map_values(|t: Template| t@)
}

/// The validated cross-language tables, one [`Template`] per distinct
/// source template, in order of first occurrence across the language
/// sequence.
#[derive(Debug)]
pub struct Tables {
    pub templates: Vec<Template>,
}

impl View for Tables {
    type V = Seq<TemplateV>;

    open spec fn view(&self) -> Seq<TemplateV> {
        tmpl_views(self.templates@)
    }
}

// ---------------------------------------------------------------------
// What building the tables means
// ---------------------------------------------------------------------

/// Index of the first template whose source is `src`, or `-1`.
pub open spec fn find_tmpl(ts: Seq<TemplateV>, src: Seq<char>) -> int
    decreases ts.len(),
{
    if ts.len() == 0 {
        -1
    } else if ts[0].src == src {
        0
    } else {
        let r = find_tmpl(ts.drop_first(), src);
        if r < 0 {
            -1
        } else {
            r + 1
        }
    }
}

/// Fold one catalog entry of language `code` into the tables: a new
/// source template is appended with its placeholder count; a
/// translation is recorded if its count matches, rejected if not, and
/// skipped when the entry is untranslated.
pub open spec fn add_entry_spec(ts: Seq<TemplateV>, code: Seq<char>, e: EntryV) -> Result<
    Seq<TemplateV>,
    ValidationErrorV,
> {
    let j0 = find_tmpl(ts, e.0);
    let ts1 = if j0 < 0 {
        ts.push(TemplateV { src: e.0, count: ph_count(e.0), pairs: Seq::empty() })
    } else {
        ts
    };
    let j = if j0 < 0 {
        ts.len() as int
    } else {
        j0
    };
    match e.1 {
        None => Ok(ts1),
        Some(tr) => {
            if ph_count(tr) == ts1[j].count {
                Ok(
                    ts1.update(
                        j,
                        TemplateV {
                            src: ts1[j].src,
                            count: ts1[j].count,
                            pairs: ts1[j].pairs.push((code, tr)),
                        },
                    ),
                )
            } else {
                Err(
                    ValidationErrorV {
                        template: e.0,
                        lang_code: code,
                        expected: ts1[j].count,
                        found: ph_count(tr),
                    },
                )
            }
        },
    }
}

/// Fold the entries of one language from index `k` on.
pub open spec fn add_entries_spec(
    ts: Seq<TemplateV>,
    code: Seq<char>,
    es: Seq<EntryV>,
    k: int,
) -> Result<Seq<TemplateV>, ValidationErrorV>
    decreases es.len() - k,
{
    if k < 0 || k >= es.len() {
        Ok(ts)
    } else {
        match add_entry_spec(ts, code, es[k]) {
            Ok(t2) => add_entries_spec(t2, code, es, k + 1),
            Err(e) => Err(e),
        }
    }
}

/// Fold the languages from index `i` on.
pub open spec fn build_from(ts: Seq<TemplateV>, langs: Seq<LangV>, i: int) -> Result<
    Seq<TemplateV>,
    ValidationErrorV,
>
    decreases langs.len() - i,
{
    if i < 0 || i >= langs.len() {
        Ok(ts)
    } else {
        match add_entries_spec(ts, langs[i].code, langs[i].entries, 0) {
            Ok(t2) => build_from(t2, langs, i + 1),
            Err(e) => Err(e),
        }
    }
}

/// What building the tables from a language sequence means.
pub open spec fn build_spec(langs: Seq<LangV>) -> Result<Seq<TemplateV>, ValidationErrorV> {
    build_from(Seq::empty(), langs, 0)
}

// ---------------------------------------------------------------------
// Executable build
// ---------------------------------------------------------------------

/// [`find_tmpl`] returns either `-1` with no template matching, or
/// the first matching index.
pub proof fn lemma_find_tmpl(ts: Seq<TemplateV>, src: Seq<char>)
    ensures
        find_tmpl(ts, src) == -1 ==> forall|j: int| 0 <= j < ts.len() ==> ts[j].src != src,
        find_tmpl(ts, src) >= 0 ==> 0 <= find_tmpl(ts, src) < ts.len() && ts[find_tmpl(
            ts,
            src,
        )].src == src && forall|j: int| 0 <= j < find_tmpl(ts, src) ==> ts[j].src != src,
    decreases ts.len(),
{
    if ts.len() == 0 {
    } else if ts[0].src == src {
    } else {
        let t = ts.drop_first();
        lemma_find_tmpl(t, src);
        let r = find_tmpl(ts, src);
        if find_tmpl(t, src) < 0 {
            assert forall|j: int| 0 <= j < ts.len() implies ts[j].src != src by {
                if j > 0 {
                    assert(ts[j] == t[j - 1]);
                }
            }
        } else {
            assert(ts[r] == t[r - 1]);
            assert forall|j: int| 0 <= j < r implies ts[j].src != src by {
                if j > 0 {
                    assert(ts[j] == t[j - 1]);
                }
            }
        }
    }
}

/// Executable first-match search; mirrors [`find_tmpl`].
fn find_template(ts: &Vec<Template>, src: &Vec<char>) -> (r: Option<usize>)
    ensures
        r is None ==> find_tmpl(tmpl_views(ts@), src@) == -1,
        r matches Some(j) ==> 0 <= j < ts@.len() && find_tmpl(tmpl_views(ts@), src@) == j as int,
{
    let ghost tv = tmpl_views(ts@);
    let n: usize = ts.len();
    let mut j: usize = 0;
    while j < n
        invariant
            j <= n,
            n == ts@.len(),
            tv == tmpl_views(ts@),
            forall|m: int| 0 <= m < j ==> tv[m].src != src@,
        decreases n - j,
    {
        proof {
            lemma_find_tmpl(tv, src@);
        }
        assert(tv[j as int] == ts@[j as int]@);
        if chars_eq(&ts[j].src, src) {
            assert(tv[j as int].src == src@);
            assert(find_tmpl(tv, src@) == j as int) by {
                if find_tmpl(tv, src@) == -1 {
                    assert(tv[j as int].src != src@);
                }
            }
            return Some(j);
        }
        assert(tv[j as int].src != src@);
        j = j + 1;
    }
    proof {
        lemma_find_tmpl(tv, src@);
    }
    assert(find_tmpl(tv, src@) == -1) by {
        if find_tmpl(tv, src@) >= 0 {
            assert(tv[find_tmpl(tv, src@)].src == src@);
        }
    }
    None
}

impl Tables {
    /// Build the validated tables from the registered languages, in
    /// order; the first placeholder-count mismatch aborts the build
    /// with exactly the error [`build_spec`] names.
    pub fn build(langs: &Vec<Lang>) -> (r: Result<Tables, ValidationError>)
        ensures
            r matches Ok(t) ==> build_spec(lang_views(langs@)) == Ok::<
                Seq<TemplateV>,
                ValidationErrorV,
            >(t@),
            r matches Err(e) ==> build_spec(lang_views(langs@)) == Err::<
                Seq<TemplateV>,
                ValidationErrorV,
            >(e@),
    {
        let ghost lv = lang_views(langs@);
        let mut ts: Vec<Template> = Vec::new();
        proof {
            assert(tmpl_views(ts@) =~= Seq::<TemplateV>::empty());
        }
        let nl: usize = langs.len();
        let mut i: usize = 0;
        while i < nl
            invariant
                i <= nl,
                nl == langs@.len(),
                lv == lang_views(langs@),
                build_spec(lv) == build_from(tmpl_views(ts@), lv, i as int),
            decreases nl - i,
        {
            assert(lv[i as int] == langs@[i as int]@);
            let ghost code_v = lv[i as int].code;
            let ghost es_v = lv[i as int].entries;
            let ne: usize = langs[i].entries.len();
            proof {
                assert(es_v.len() == ne);
            }
            let mut k: usize = 0;
            while k < ne
                invariant
                    k <= ne,
                    i < nl,
                    nl == langs@.len(),
                    ne == langs@[i as int].entries@.len(),
                    lv == lang_views(langs@),
                    lv[i as int] == langs@[i as int]@,
                    code_v == lv[i as int].code,
                    es_v == lv[i as int].entries,
                    es_v.len() == ne,
                    build_spec(lv) == (match add_entries_spec(tmpl_views(ts@), code_v, es_v, k as int) {
                        Ok(t2) => build_from(t2, lv, i as int + 1),
                        Err(e) => Err(e),
                    }),
                decreases ne - k,
            {
                let ghost ts0 = tmpl_views(ts@);
                let ghost e_v = es_v[k as int];
                proof {
                    assert(es_v[k as int] == langs@[i as int].entries@[k as int]@);
                }
                let found = find_template(&ts, &langs[i].entries[k].msgid);
                assert(langs@[i as int].entries@[k as int]@.0 == langs@[i as int].entries@[k as int].msgid@);
                let j: usize = match found {
                    Some(j) => j,
                    None => {
                        let src = clone_chars(&langs[i].entries[k].msgid);
                        let count = crate::template::count_placeholders(&src);
                        ts.push(Template { src, count, pairs: Vec::new() });
                        proof {
                            assert(raw_views(Seq::<(Vec<char>, Vec<char>)>::empty())
                                =~= Seq::<(Seq<char>, Seq<char>)>::empty());
                            assert(tmpl_views(ts@) =~= ts0.push(
                                TemplateV {
                                    src: e_v.0,
                                    count: ph_count(e_v.0),
                                    pairs: Seq::empty(),
                                },
                            ));
                        }
                        ts.len() - 1
                    },
                };
                let ghost ts1 = tmpl_views(ts@);
                proof {
                    assert(ts1[j as int] == ts@[j as int]@);
                    if found is None {
                        assert(ts1 == ts0.push(
                            TemplateV { src: e_v.0, count: ph_count(e_v.0), pairs: Seq::empty() },
                        ));
                        assert(ts1[j as int].src == e_v.0);
                    }
                }
                if let Some(tr) = &langs[i].entries[k].msgstr {
                    proof {
                        assert(e_v.1 == Some(tr@));
                    }
                    let c = crate::template::count_placeholders(tr);
                    if c == ts[j].count {
                        let code_c = clone_chars(&langs[i].code);
                        let tr_c = clone_chars(tr);
                        let tmpl = &mut ts[j];
                        tmpl.pairs.push((code_c, tr_c));
                        proof {
                            assert(raw_views(ts@[j as int].pairs@) =~= ts1[j as int].pairs.push(
                                (code_v, e_v.1->0),
                            ));
                            assert(tmpl_views(ts@) =~= ts1.update(
                                j as int,
                                TemplateV {
                                    src: ts1[j as int].src,
                                    count: ts1[j as int].count,
                                    pairs: ts1[j as int].pairs.push((code_v, e_v.1->0)),
                                },
                            ));
                        }
                    } else {
                        let err = ValidationError::PlaceholderMismatch {
                            template: chars_to_string(&langs[i].entries[k].msgid),
                            lang_code: chars_to_string(&langs[i].code),
                            expected: ts[j].count,
                            found: c,
                        };
                        proof {
                            assert(add_entry_spec(ts0, code_v, e_v) == Err::<
                                Seq<TemplateV>,
                                ValidationErrorV,
                            >(err@));
                        }
                        return Err(err);
                    }
                }
                proof {
                    assert(add_entry_spec(ts0, code_v, e_v) == Ok::<
                        Seq<TemplateV>,
                        ValidationErrorV,
                    >(tmpl_views(ts@)));
                }
                k = k + 1;
            }
            proof {
                assert(add_entries_spec(tmpl_views(ts@), code_v, es_v, ne as int) == Ok::<
                    Seq<TemplateV>,
                    ValidationErrorV,
                >(tmpl_views(ts@)));
            }
            i = i + 1;
        }
        Ok(Tables { templates: ts })
    }
}

// ---------------------------------------------------------------------
// Dispatch
// ---------------------------------------------------------------------

/// The translation recorded for language `code`: the first matching
/// pair, or `None` where the language never translated this template.
pub open spec fn lookup_pair(ps: Seq<(Seq<char>, Seq<char>)>, code: Seq<char>) -> Option<Seq<char>>
    decreases ps.len(),
{
    if ps.len() == 0 {
        None
    } else if ps[0].0 == code {
        Some(ps[0].1)
    } else {
        lookup_pair(ps.drop_first(), code)
    }
}

/// The template dispatched for language `code`: its recorded
/// translation, or the source template itself as the fallback.
pub open spec fn effective(t: TemplateV, code: Seq<char>) -> Seq<char> {
    match lookup_pair(t.pairs, code) {
        Some(tr) => tr,
        None => t.src,
    }
}

/// [`lookup_pair`] finds the first matching pair, and nothing where
/// no pair matches.
pub proof fn lemma_lookup_pair(ps: Seq<(Seq<char>, Seq<char>)>, code: Seq<char>, m: int)
    ensures
        (forall|j: int| 0 <= j < ps.len() ==> ps[j].0 != code) ==> lookup_pair(ps, code) is None,
        (0 <= m < ps.len() && ps[m].0 == code && forall|j: int| 0 <= j < m ==> ps[j].0 != code)
            ==> lookup_pair(ps, code) == Some(ps[m].1),
    decreases ps.len(),
{
    if ps.len() == 0 {
    } else if ps[0].0 == code {
    } else {
        let t = ps.drop_first();
        lemma_lookup_pair(t, code, m - 1);
        assert(forall|j: int| 0 <= j < t.len() ==> t[j] == ps[j + 1]);
    }
}

/// Look up the translation of language `code` among the pairs;
/// mirrors [`lookup_pair`].
fn find_pair<'a>(ps: &'a Vec<(Vec<char>, Vec<char>)>, code: &Vec<char>) -> (r: Option<
    &'a Vec<char>,
>)
    ensures
        r is None ==> lookup_pair(raw_views(ps@), code@) is None,
        r matches Some(tr) ==> lookup_pair(raw_views(ps@), code@) == Some(tr@),
{
    let ghost pv = raw_views(ps@);
    let n: usize = ps.len();
    let mut m: usize = 0;
    while m < n
        invariant
            m <= n,
            n == ps@.len(),
            pv == raw_views(ps@),
            forall|j: int| 0 <= j < m ==> pv[j].0 != code@,
        decreases n - m,
    {
        assert(pv[m as int] == (ps@[m as int].0@, ps@[m as int].1@));
        if chars_eq(&ps[m].0, code) {
            proof {
                lemma_lookup_pair(pv, code@, m as int);
            }
            return Some(&ps[m].1);
        }
        m = m + 1;
    }
    proof {
        lemma_lookup_pair(pv, code@, 0);
    }
    None
}

/// A language code none of the pairs name is dispatched to the
/// source template itself: the unknown-language fallback, never an
/// error.
pub proof fn lemma_unknown_lang_falls_back(t: TemplateV, code: Seq<char>)
    requires
        forall|j: int| 0 <= j < t.pairs.len() ==> t.pairs[j].0 != code,
    ensures
        effective(t, code) == t.src,
{
    lemma_lookup_pair(t.pairs, code, 0);
}

/// Every table the build accepts is placeholder-consistent: each
/// template's stored count is its source's placeholder count, and
/// every recorded translation has exactly that count.
pub open spec fn wf_tables(ts: Seq<TemplateV>) -> bool {
    forall|i: int|
        0 <= i < ts.len() ==> (#[trigger] ts[i]).count == ph_count(ts[i].src) && forall|j: int|
            0 <= j < ts[i].pairs.len() ==> ph_count(#[trigger] ts[i].pairs[j].1) == ts[i].count
}

proof fn lemma_add_entry_wf(ts: Seq<TemplateV>, code: Seq<char>, e: EntryV)
    requires
        wf_tables(ts),
    ensures
        add_entry_spec(ts, code, e) matches Ok(t2) ==> wf_tables(t2),
{
    lemma_find_tmpl(ts, e.0);
    match add_entry_spec(ts, code, e) {
        Ok(t2) => {
            let j0 = find_tmpl(ts, e.0);
            let ts1 = if j0 < 0 {
                ts.push(TemplateV { src: e.0, count: ph_count(e.0), pairs: Seq::empty() })
            } else {
                ts
            };
            assert(wf_tables(ts1));
            let j = if j0 < 0 {
                ts.len() as int
            } else {
                j0
            };
            match e.1 {
                None => {},
                Some(tr) => {
                    assert forall|i: int| 0 <= i < t2.len() implies (#[trigger] t2[i]).count
                        == ph_count(t2[i].src) && forall|m: int|
                        0 <= m < t2[i].pairs.len() ==> ph_count(#[trigger] t2[i].pairs[m].1)
                            == t2[i].count by {
                        if i != j {
                            assert(t2[i] == ts1[i]);
                        } else {
                            assert forall|m: int| 0 <= m < t2[j].pairs.len() implies ph_count(
                                #[trigger] t2[j].pairs[m].1,
                            ) == t2[j].count by {
                                if m < ts1[j].pairs.len() {
                                    assert(t2[j].pairs[m] == ts1[j].pairs[m]);
                                } else {
                                    assert(t2[j].pairs[m] == (code, tr));
                                }
                            }
                        }
                    }
                },
            }
        },
        Err(_) => {},
    }
}

proof fn lemma_add_entries_wf(ts: Seq<TemplateV>, code: Seq<char>, es: Seq<EntryV>, k: int)
    requires
        wf_tables(ts),
    ensures
        add_entries_spec(ts, code, es, k) matches Ok(t2) ==> wf_tables(t2),
    decreases es.len() - k,
{
    if k < 0 || k >= es.len() {
    } else {
        lemma_add_entry_wf(ts, code, es[k]);
        match add_entry_spec(ts, code, es[k]) {
            Ok(t2) => {
                lemma_add_entries_wf(t2, code, es, k + 1);
            },
            Err(_) => {},
        }
    }
}

proof fn lemma_build_from_wf(ts: Seq<TemplateV>, langs: Seq<LangV>, i: int)
    requires
        wf_tables(ts),
    ensures
        build_from(ts, langs, i) matches Ok(t2) ==> wf_tables(t2),
    decreases langs.len() - i,
{
    if i < 0 || i >= langs.len() {
    } else {
        lemma_add_entries_wf(ts, langs[i].code, langs[i].entries, 0);
        match add_entries_spec(ts, langs[i].code, langs[i].entries, 0) {
            Ok(t2) => {
                lemma_build_from_wf(t2, langs, i + 1);
            },
            Err(_) => {},
        }
    }
}

/// Tables the build accepts are placeholder-consistent.
pub proof fn lemma_build_wf(langs: Seq<LangV>)
    ensures
        build_spec(langs) matches Ok(ts) ==> wf_tables(ts),
{
    assert(wf_tables(Seq::<TemplateV>::empty()));
    lemma_build_from_wf(Seq::empty(), langs, 0);
}

/// A successful lookup hands back one of the recorded translations.
pub proof fn lemma_lookup_in(ps: Seq<(Seq<char>, Seq<char>)>, code: Seq<char>)
    ensures
        lookup_pair(ps, code) matches Some(tr) ==> exists|j: int|
            0 <= j < ps.len() && #[trigger] ps[j] == (code, tr),
    decreases ps.len(),
{
    if ps.len() == 0 {
    } else if ps[0].0 == code {
        assert(ps[0] == (code, ps[0].1));
    } else {
        let t = ps.drop_first();
        lemma_lookup_in(t, code);
        match lookup_pair(ps, code) {
            Some(tr) => {
                let j = choose|j: int| 0 <= j < t.len() && #[trigger] t[j] == (code, tr);
                assert(ps[j + 1] == (code, tr));
            },
            None => {},
        }
    }
}

/// In any table the build accepts, every template a language is
/// dispatched to either is the fallback (the source template itself)
/// or has exactly the source template's placeholder count.
pub proof fn lemma_dispatch_placeholders(ts: Seq<TemplateV>, i: int, code: Seq<char>)
    requires
        wf_tables(ts),
        0 <= i < ts.len(),
    ensures
        effective(ts[i], code) == ts[i].src || ph_count(effective(ts[i], code)) == ph_count(
            ts[i].src,
        ),
{
    lemma_lookup_in(ts[i].pairs, code);
    match lookup_pair(ts[i].pairs, code) {
        Some(tr) => {
            let j = choose|j: int|
                0 <= j < ts[i].pairs.len() && #[trigger] ts[i].pairs[j] == (code, tr);
            assert(ph_count(ts[i].pairs[j].1) == ts[i].count);
        },
        None => {},
    }
}

impl Tables {
    /// Dispatch: substitute `args` into the template recorded for
    /// language `lang` under the source template `template`, falling
    /// back to the source template itself when the language is
    /// unknown or never translated it. `None` only for a source
    /// template these tables do not hold, or an argument count other
    /// than the template's placeholder count.
    pub fn render(&self, template: &str, lang: &str, args: &Vec<String>) -> (r: Option<String>)
        ensures
            ({
                let j = find_tmpl(self@, template@);
                &&& (j == -1 ==> r is None)
                &&& (j >= 0 && args@.len() != self@[j].count ==> r is None)
                &&& (j >= 0 && args@.len() == self@[j].count ==> (r matches Some(s) && s@
                    == crate::template::subst(
                    effective(self@[j], lang@),
                    crate::template::str_views(args@),
                )))
            }),
    {
        let tv = crate::chars::to_char_vec(template);
        match find_template(&self.templates, &tv) {
            None => None,
            Some(j) => {
                assert(self@[j as int] == self.templates@[j as int]@);
                if args.len() != self.templates[j].count {
                    None
                } else {
                    let cv = crate::chars::to_char_vec(lang);
                    let chosen: &Vec<char> = match find_pair(&self.templates[j].pairs, &cv) {
                        Some(tr) => tr,
                        None => &self.templates[j].src,
                    };
                    assert(chosen@ == effective(self@[j as int], lang@));
                    let mut out = String::new();
                    crate::template::push_substituted(&mut out, chosen, args);
                    assert(out@ =~= crate::template::subst(
                        effective(self@[j as int], lang@),
                        crate::template::str_views(args@),
                    ));
                    Some(out)
                }
            },
        }
    }
}

// ---------------------------------------------------------------------
// The source artifact
// ---------------------------------------------------------------------

/// The fixed head of the artifact: a positional substitution helper
/// that the emitted dispatch functions call.
pub open spec fn header_text() -> Seq<char> {
    "// Localization tables: one dispatch function per source template.\n\npub fn subst(template: &str, args: &[&str]) -> String {\n    let cs: Vec<char> = template.chars().collect();\n    let mut out = String::new();\n    let mut i = 0;\n    let mut a = 0;\n    while i < cs.len() {\n        if i + 1 < cs.len() && cs[i] == '{' && cs[i + 1] == '{' {\n            out.push('{');\n            i += 2;\n        } else if i + 1 < cs.len() && cs[i] == '}' && cs[i + 1] == '}' {\n            out.push('}');\n            i += 2;\n        } else if i + 1 < cs.len() && cs[i] == '{' && cs[i + 1] == '}' {\n            if a < args.len() {\n                out.push_str(args[a]);\n                a += 1;\n            }\n            i += 2;\n        } else {\n            out.push(cs[i]);\n            i += 1;\n        }\n    }\n    out\n}\n\n"@
}

/// One emitted translation arm: `"code" => "translation",`.
pub open spec fn emit_pair(p: (Seq<char>, Seq<char>)) -> Seq<char> {
    "        \""@ + crate::parser::esc(p.0) + "\" => \""@ + crate::parser::esc(p.1) + "\",\n"@
}

/// The translation arms from index `k` on.
pub open spec fn emit_pairs(ps: Seq<(Seq<char>, Seq<char>)>, k: int) -> Seq<char>
    decreases ps.len() - k,
{
    if k < 0 || k >= ps.len() {
        Seq::empty()
    } else {
        emit_pair(ps[k]) + emit_pairs(ps, k + 1)
    }
}

/// One emitted dispatch function: `localize_<idx>` matches the
/// language code against the translation arms, falls back to the
/// source template, and substitutes the arguments.
pub open spec fn emit_tmpl(t: TemplateV, idx: nat) -> Seq<char> {
    "pub fn localize_"@ + dec_rep(idx)
        + "(lang: &str, args: &[&str]) -> String {\n    let t: &str = match lang {\n"@ + emit_pairs(
        t.pairs,
        0,
    ) + "        _ => \""@ + crate::parser::esc(t.src) + "\",\n    };\n    subst(t, args)\n}\n\n"@
}

/// The dispatch functions from template index `i` on.
pub open spec fn emit_tmpls(ts: Seq<TemplateV>, i: int) -> Seq<char>
    decreases ts.len() - i,
{
    if i < 0 || i >= ts.len() {
        Seq::empty()
    } else {
        emit_tmpl(ts[i], i as nat) + emit_tmpls(ts, i + 1)
    }
}

/// The whole artifact: the substitution helper, then one dispatch
/// function per template, in table order.
pub open spec fn emit_spec(ts: Seq<TemplateV>) -> Seq<char> {
    header_text() + emit_tmpls(ts, 0)
}

/// Append every translation arm; mirrors [`emit_pairs`] from 0.
fn push_pairs(out: &mut String, ps: &Vec<(Vec<char>, Vec<char>)>)
    ensures
        final(out)@ == old(out)@ + emit_pairs(raw_views(ps@), 0),
{
    let ghost pv = raw_views(ps@);
    let n: usize = ps.len();
    let mut k: usize = 0;
    while k < n
        invariant
            k <= n,
            n == ps@.len(),
            pv == raw_views(ps@),
            old(out)@ + emit_pairs(pv, 0) == out@ + emit_pairs(pv, k as int),
        decreases n - k,
    {
        let ghost out0 = out@;
        out.append("        \"");
        crate::parser::push_escaped(out, &ps[k].0);
        out.append("\" => \"");
        crate::parser::push_escaped(out, &ps[k].1);
        out.append("\",\n");
        proof {
            assert(pv[k as int] == (ps@[k as int].0@, ps@[k as int].1@));
            assert(out@ =~= out0 + emit_pair(pv[k as int]));
            assert(emit_pairs(pv, k as int) == emit_pair(pv[k as int]) + emit_pairs(pv, k + 1));
            assert(out0 + (emit_pair(pv[k as int]) + emit_pairs(pv, k + 1)) =~= (out0 + emit_pair(
                pv[k as int],
            )) + emit_pairs(pv, k + 1));
        }
        k = k + 1;
    }
    proof {
        assert(out@ + emit_pairs(pv, n as int) =~= out@);
    }
}

/// Append one dispatch function; mirrors [`emit_tmpl`].
fn push_template(out: &mut String, t: &Template, idx: usize)
    ensures
        final(out)@ == old(out)@ + emit_tmpl(t@, idx as nat),
{
    out.append("pub fn localize_");
    push_dec(out, idx);
    out.append("(lang: &str, args: &[&str]) -> String {\n    let t: &str = match lang {\n");
    push_pairs(out, &t.pairs);
    out.append("        _ => \"");
    crate::parser::push_escaped(out, &t.src);
    out.append("\",\n    };\n    subst(t, args)\n}\n\n");
    proof {
        assert(out@ =~= old(out)@ + emit_tmpl(t@, idx as nat));
    }
}

/// Print the validated tables as the source artifact; the result is
/// exactly [`emit_spec`] of the tables.
pub fn emit(tables: &Tables) -> (r: String)
    ensures
        r@ == emit_spec(tables@),
{
    let ghost tv = tables@;
    let mut out = String::new();
    out.append(
        "// Localization tables: one dispatch function per source template.\n\npub fn subst(template: &str, args: &[&str]) -> String {\n    let cs: Vec<char> = template.chars().collect();\n    let mut out = String::new();\n    let mut i = 0;\n    let mut a = 0;\n    while i < cs.len() {\n        if i + 1 < cs.len() && cs[i] == '{' && cs[i + 1] == '{' {\n            out.push('{');\n            i += 2;\n        } else if i + 1 < cs.len() && cs[i] == '}' && cs[i + 1] == '}' {\n            out.push('}');\n            i += 2;\n        } else if i + 1 < cs.len() && cs[i] == '{' && cs[i + 1] == '}' {\n            if a < args.len() {\n                out.push_str(args[a]);\n                a += 1;\n            }\n            i += 2;\n        } else {\n            out.push(cs[i]);\n            i += 1;\n        }\n    }\n    out\n}\n\n",
    );
    proof {
        assert(out@ =~= header_text());
    }
    let n: usize = tables.templates.len();
    let mut k: usize = 0;
    while k < n
        invariant
            k <= n,
            n == tv.len(),
            tv == tables@,
            emit_spec(tv) == out@ + emit_tmpls(tv, k as int),
        decreases n - k,
    {
        let ghost out0 = out@;
        assert(tv[k as int] == tables.templates@[k as int]@);
        push_template(&mut out, &tables.templates[k], k);
        proof {
            assert(emit_tmpls(tv, k as int) == emit_tmpl(tv[k as int], k as nat) + emit_tmpls(
                tv,
                k + 1,
            ));
            assert(out0 + (emit_tmpl(tv[k as int], k as nat) + emit_tmpls(tv, k + 1)) =~= (out0
                + emit_tmpl(tv[k as int], k as nat)) + emit_tmpls(tv, k + 1));
        }
        k = k + 1;
    }
    proof {
        assert(out@ + emit_tmpls(tv, n as int) =~= out@);
    }
    out
}

} // verus!
