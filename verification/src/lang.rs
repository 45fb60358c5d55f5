//! One parsed catalog: a language code and its ordered entries.

use vstd::prelude::*;
use vstd::string::*;
use crate::chars::{to_char_vec, chars_eq};
use crate::error::ParseError;
use crate::parser::{
    parse_spec, split_text, run_lines, dedup, entry_of, find_key, lemma_find_key, upsert,
    raw_views, EntryV, RawEntry, ser_entries, ser_entry, push_escaped, kw_msgid, kw_msgstr,
};

verus! {

/// One catalog entry: the original format string (the key) and its
/// translation; `None` where the `msgstr` was empty (untranslated).
#[derive(Debug, Clone, PartialEq, Eq)]
pub struct Entry {
    pub msgid: Vec<char>,
    pub msgstr: Option<Vec<char>>,
}

impl View for Entry {
    type V = EntryV;

    open spec fn view(&self) -> EntryV {
        (
            self.msgid@,
            match self.msgstr {
                Some(ref v) => Some(v@),
                None => None,
            },
        )
    }
}

/// The views of a vector of entries.
pub open spec fn entry_views(s: Seq<Entry>) -> Seq<EntryV> {
    s.map_values(|e: Entry| e@)
}

/// Mathematical model of a [`Lang`].
pub struct LangV {
    pub code: Seq<char>,
    pub entries: Seq<EntryV>,
}

/// A parsed catalog: a language code and the ordered mapping from
/// source template to translation, `msgid` keys unique, in order of
/// first occurrence.
#[derive(Debug, Clone, PartialEq, Eq)]
pub struct Lang {
    pub code: Vec<char>,
    pub entries: Vec<Entry>,
}

impl View for Lang {
    type V = LangV;

    open spec fn view(&self) -> LangV {
        LangV { code: self.code@, entries: entry_views(self.entries@) }
    }
}

/// The views of a vector of parsed catalogs.
pub open spec fn lang_views(s: Seq<Lang>) -> Seq<LangV> {
    s.map_values(|l: Lang| l@)
}

// ---------------------------------------------------------------------
// What find_key and dedup mean, entry by entry
// ---------------------------------------------------------------------

/// Upserting an entry makes its key findable, with exactly that
/// entry as the value.
proof fn lemma_upsert_finds(es: Seq<EntryV>, e: EntryV)
    ensures
        ({
            let es2 = upsert(es, e);
            let i = find_key(es2, e.0);
            0 <= i < es2.len() && es2[i] == e
        }),
{
    lemma_find_key(es, e.0);
    let j = find_key(es, e.0);
    let es2 = upsert(es, e);
    lemma_find_key(es2, e.0);
    let i = find_key(es2, e.0);
    if j < 0 {
        assert(es2 == es.push(e));
        assert(es2[es.len() as int] == e);
        if i == -1 {
            assert(es2[es.len() as int].0 != e.0);
        }
        assert(i >= 0);
        if i < es.len() {
            assert(es2[i] == es[i]);
        }
    } else {
        assert(es2 == es.update(j, e));
        assert(es2[j] == e);
        if i == -1 {
            assert(es2[j].0 != e.0);
        }
        assert(i >= 0);
        if i < j {
            assert(es2[i] == es[i]);
        }
        if i > j {
            assert(es2[j].0 != e.0);
        }
        assert(i == j);
    }
}

/// Upserting an entry of another key leaves what is found for `k`
/// unchanged.
proof fn lemma_upsert_other(es: Seq<EntryV>, e: EntryV, k: Seq<char>)
    requires
        k != e.0,
        0 <= find_key(es, k) < es.len(),
    ensures
        ({
            let es2 = upsert(es, e);
            let i = find_key(es2, k);
            i == find_key(es, k) && 0 <= i < es2.len() && es2[i] == es[find_key(es, k)]
        }),
{
    lemma_find_key(es, k);
    lemma_find_key(es, e.0);
    let i0 = find_key(es, k);
    let j = find_key(es, e.0);
    let es2 = upsert(es, e);
    lemma_find_key(es2, k);
    let i = find_key(es2, k);
    if j < 0 {
        assert(es2 == es.push(e));
        assert(es2[i0] == es[i0]);
        if i == -1 {
            assert(es2[i0].0 != k);
        }
        assert(i >= 0);
        if i < i0 {
            assert(es2[i] == es[i]);
        }
        if i0 < i {
            assert(es2[i0].0 != k);
        }
    } else {
        assert(es2 == es.update(j, e));
        assert(j != i0);
        assert(es2[i0] == es[i0]);
        if i == -1 {
            assert(es2[i0].0 != k);
        }
        assert(i >= 0);
        if i < i0 {
            if i != j {
                assert(es2[i] == es[i]);
            }
        }
        if i0 < i {
            assert(es2[i0].0 != k);
        }
    }
}

/// Duplicate `msgid`s keep the last `msgstr`: where `m` is the last
/// occurrence of its key among the raw entries, the deduplicated
/// entries hold exactly that occurrence's value under the key.
pub proof fn lemma_dedup_last_wins(raw: Seq<RawEntry>, m: int)
    requires
        0 <= m < raw.len(),
        forall|j: int| m < j < raw.len() ==> raw[j].0 != raw[m].0,
    ensures
        ({
            let es = dedup(raw);
            let i = find_key(es, raw[m].0);
            0 <= i < es.len() && es[i] == entry_of(raw[m])
        }),
    decreases raw.len(),
{
    let prev = raw.drop_last();
    let es_prev = dedup(prev);
    let e_last = entry_of(raw.last());
    if m == raw.len() - 1 {
        assert(raw.last() == raw[m]);
        lemma_upsert_finds(es_prev, e_last);
    } else {
        assert(prev[m] == raw[m]);
        assert(forall|j: int| m < j < prev.len() ==> prev[j] == raw[j]);
        lemma_dedup_last_wins(prev, m);
        assert(raw[raw.len() - 1].0 != raw[m].0);
        assert(e_last.0 == raw.last().0);
        lemma_upsert_other(es_prev, e_last, raw[m].0);
    }
}

/// Executable first-match search; mirrors [`find_key`].
fn find_entry(es: &Vec<Entry>, k: &Vec<char>) -> (r: Option<usize>)
    ensures
        r is None ==> find_key(entry_views(es@), k@) == -1,
        r matches Some(j) ==> 0 <= j < es@.len() && find_key(entry_views(es@), k@) == j as int,
{
    let ghost ev = entry_views(es@);
    let n: usize = es.len();
    let mut j: usize = 0;
    while j < n
        invariant
            j <= n,
            n == es@.len(),
            ev == entry_views(es@),
            forall|m: int| 0 <= m < j ==> ev[m].0 != k@,
        decreases n - j,
    {
        proof {
            lemma_find_key(ev, k@);
        }
        assert(ev[j as int] == es@[j as int]@);
        if chars_eq(&es[j].msgid, k) {
            assert(ev[j as int].0 == k@);
            assert(find_key(ev, k@) == j as int) by {
                if find_key(ev, k@) == -1 {
                    assert(ev[j as int].0 != k@);
                }
            }
            return Some(j);
        }
        assert(ev[j as int].0 != k@);
        j = j + 1;
    }
    proof {
        lemma_find_key(ev, k@);
    }
    assert(find_key(ev, k@) == -1) by {
        if find_key(ev, k@) >= 0 {
            assert(ev[find_key(ev, k@)].0 == k@);
        }
    }
    None
}

/// Fold raw entries into finished ones: duplicate `msgid`s keep the
/// order of the first occurrence and the value of the last; an empty
/// `msgstr` becomes "untranslated". Mirrors [`dedup`].
fn dedup_entries(raw: Vec<(Vec<char>, Vec<char>)>) -> (r: Vec<Entry>)
    ensures
        entry_views(r@) == dedup(raw_views(raw@)),
{
    let ghost rv = raw_views(raw@);
    let ghost n = rv.len();
    let mut raw = raw;
    let mut acc: Vec<Entry> = Vec::new();
    let ghost k: int = 0;
    proof {
        assert(entry_views(acc@) =~= Seq::<EntryV>::empty());
        assert(rv.take(0) =~= Seq::<RawEntry>::empty());
        assert(raw_views(raw@) =~= rv.skip(0));
    }
    while raw.len() > 0
        invariant
            0 <= k <= n,
            n == rv.len(),
            raw_views(raw@) == rv.skip(k),
            entry_views(acc@) == dedup(rv.take(k)),
        decreases raw@.len(),
    {
        proof {
            assert(raw_views(raw@).len() == raw@.len());
        }
        let ghost acc0 = entry_views(acc@);
        let ghost prev = raw@;
        let (id, s) = raw.remove(0);
        proof {
            assert(rv.skip(k)[0] == rv[k]);
            assert(raw_views(prev)[0] == (prev[0].0@, prev[0].1@));
            assert((id@, s@) == rv[k]);
            assert(forall|m: int| 0 <= m < raw@.len() ==> raw@[m] == prev[m + 1]);
            assert(forall|m: int|
                0 <= m < raw@.len() ==> #[trigger] raw_views(raw@)[m] == (raw@[m].0@, raw@[m].1@)
                    && raw_views(prev)[m + 1] == (prev[m + 1].0@, prev[m + 1].1@));
            assert(raw_views(raw@) =~= rv.skip(k + 1));
        }
        let e = Entry { msgid: id, msgstr: if s.len() == 0 { None } else { Some(s) } };
        proof {
            assert(rv.take(k + 1).drop_last() =~= rv.take(k));
            assert(rv.take(k + 1).last() == rv[k]);
            assert(e@ == entry_of(rv[k]));
        }
        match find_entry(&acc, &e.msgid) {
            None => {
                acc.push(e);
                proof {
                    assert(entry_views(acc@) =~= acc0.push(entry_of(rv[k])));
                    assert(entry_views(acc@) == upsert(acc0, entry_of(rv[k])));
                }
            },
            Some(j) => {
                acc[j] = e;
                proof {
                    assert(entry_views(acc@) =~= acc0.update(j as int, entry_of(rv[k])));
                    assert(entry_views(acc@) == upsert(acc0, entry_of(rv[k])));
                }
            },
        }
        proof {
            assert(dedup(rv.take(k + 1)) == upsert(dedup(rv.take(k)), entry_of(rv[k])));
            k = k + 1;
        }
    }
    proof {
        assert(raw_views(raw@).len() == 0);
        assert(k == n);
        assert(rv.take(n as int) =~= rv);
    }
    acc
}

impl Lang {
    /// Write the entries back as catalog text: one `msgid` line and
    /// one `msgstr` line per entry, in order, exactly as
    /// [`ser_entries`] states.
    pub fn to_catalog(&self) -> (r: String)
        ensures
            r@ == ser_entries(self@.entries, 0),
    {
        let ghost ev = entry_views(self.entries@);
        let mut out = String::new();
        let n: usize = self.entries.len();
        let mut k: usize = 0;
        while k < n
            invariant
                k <= n,
                n == self.entries@.len(),
                ev == entry_views(self.entries@),
                ser_entries(ev, 0) == out@ + ser_entries(ev, k as int),
            decreases n - k,
        {
            let ghost out0 = out@;
            assert(ev[k as int] == self.entries@[k as int]@);
            out.append("msgid \"");
            push_escaped(&mut out, &self.entries[k].msgid);
            out.append("\"\nmsgstr \"");
            match &self.entries[k].msgstr {
                Some(v) => push_escaped(&mut out, v),
                None => {},
            }
            out.append("\"\n");
            proof {
                reveal_strlit("msgid \"");
                reveal_strlit("\"\nmsgstr \"");
                reveal_strlit("\"\n");
                assert("msgid \""@ =~= kw_msgid() + seq![' ', '"']);
                assert("\"\nmsgstr \""@ =~= seq!['"', '\n'] + kw_msgstr() + seq![' ', '"']);
                assert("\"\n"@ =~= seq!['"', '\n']);
                assert(out@ =~= out0 + ser_entry(ev[k as int]));
                assert(ser_entries(ev, k as int) == ser_entry(ev[k as int]) + ser_entries(
                    ev,
                    k + 1,
                ));
                assert(out0 + (ser_entry(ev[k as int]) + ser_entries(ev, k + 1)) =~= (out0
                    + ser_entry(ev[k as int])) + ser_entries(ev, k + 1));
            }
            k = k + 1;
        }
        proof {
            assert(out@ + ser_entries(ev, n as int) =~= out@);
        }
        out
    }

    /// Parse one catalog for the language `code`: the catalog text is
    /// accepted or rejected exactly as [`parse_spec`] says, and on
    /// success the entries are its finished, deduplicated mapping.
    pub fn new_from_str(code: &str, s: &str) -> (r: Result<Lang, ParseError>)
        ensures
            r matches Ok(l) ==> parse_spec(s@) == Ok::<Seq<EntryV>, ParseError>(l@.entries)
                && l@.code == code@,
            r matches Err(e) ==> parse_spec(s@) == Err::<Seq<EntryV>, ParseError>(e),
    {
        let text = to_char_vec(s);
        let lines = split_text(&text);
        match run_lines(&lines) {
            Err(e) => Err(e),
            Ok(raw) => {
                let entries = dedup_entries(raw);
                Ok(Lang { code: to_char_vec(code), entries })
            },
        }
    }
}

} // verus!
