//! The aggregator: languages are registered one catalog at a time and
//! consumed exactly once into the source artifact.

use vstd::prelude::*;
use crate::error::{ParseError, ValidationError, ValidationErrorV};
use crate::lang::{Lang, LangV, lang_views};
use crate::macrogen::{Tables, TemplateV, build_spec, emit, emit_spec};
use crate::parser::{parse_spec, EntryV};

verus! {

/// Collects the parsed languages, in registration order, until the
/// artifact is produced. Consuming it on generation makes one
/// aggregator yield exactly one artifact.
pub struct Localizer {
    pub langs: Vec<Lang>,
}

impl View for Localizer {
    type V = Seq<LangV>;

    open spec fn view(&self) -> Seq<LangV> {
        lang_views(self.langs@)
    }
}

impl Localizer {
    /// Create a new, empty aggregator.
    pub fn new() -> (r: Localizer)
        ensures
            r@ == Seq::<LangV>::empty(),
    {
        let r = Localizer { langs: Vec::new() };
        proof {
            assert(lang_views(r.langs@) =~= Seq::<LangV>::empty());
        }
        r
    }

    /// Register one language: `lang` is its code, `s` its catalog
    /// text. A catalog that [`parse_spec`] rejects is rejected here
    /// with the same error and leaves the aggregator unchanged; an
    /// accepted one appends exactly its parsed entries.
    pub fn add_lang(&mut self, lang: &str, s: &str) -> (r: Result<(), ParseError>)
        ensures
            r is Ok ==> (parse_spec(s@) matches Ok(es) && final(self)@ == old(self)@.push(
                LangV { code: lang@, entries: es },
            )),
            r matches Err(e) ==> parse_spec(s@) == Err::<Seq<EntryV>, ParseError>(e)
                && final(self)@ == old(self)@,
    {
        match Lang::new_from_str(lang, s) {
            Ok(l) => {
                let ghost lv = l@;
                self.langs.push(l);
                proof {
                    assert(lang_views(self.langs@) =~= lang_views(old(self).langs@).push(lv));
                }
                Ok(())
            },
            Err(e) => Err(e),
        }
    }

    /// Build the validated cross-language tables from the registered
    /// languages without consuming the aggregator.
    pub fn build_tables(&self) -> (r: Result<Tables, ValidationError>)
        ensures
            r matches Ok(t) ==> build_spec(self@) == Ok::<Seq<TemplateV>, ValidationErrorV>(t@),
            r matches Err(e) ==> build_spec(self@) == Err::<Seq<TemplateV>, ValidationErrorV>(e@),
    {
        Tables::build(&self.langs)
    }

    /// Produce the source artifact, consuming the aggregator: the
    /// validated tables printed by [`emit_spec`], or the first
    /// placeholder-count mismatch as an error.
    pub fn generate_macro_file(self) -> (r: Result<String, ValidationError>)
        ensures
            r matches Ok(s) ==> (build_spec(self@) matches Ok(ts) && s@ == emit_spec(ts)),
            r matches Err(e) ==> build_spec(self@) == Err::<Seq<TemplateV>, ValidationErrorV>(e@),
    {
        match Tables::build(&self.langs) {
            Ok(t) => Ok(emit(&t)),
            Err(e) => Err(e),
        }
    }
}

} // verus!
