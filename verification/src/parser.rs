//! The catalog grammar and its line-by-line parser.
//!
//! The whole grammar is stated as spec functions over `Seq<char>`:
//! [`split_lines`] cuts the text into lines, [`classify`] names each
//! line's token, and [`run`] drives the entry state machine over the
//! token stream. [`parse_spec`] is the one-call model that the
//! executable parser in [`crate::lang`] is proved against.

use vstd::prelude::*;
use crate::chars::{is_ws, all_ws, is_ws_char, push_char};
use crate::error::ParseError;

verus! {

// ---------------------------------------------------------------------
// Escaped strings
// ---------------------------------------------------------------------

/// How one character is written inside a quoted catalog string:
/// `"`, `\` and the newline are escaped, everything else stands as is.
pub open spec fn esc_char(c: char) -> Seq<char> {
    if c == '"' {
        seq!['\\', '"']
    } else if c == '\\' {
        seq!['\\', '\\']
    } else if c == '\n' {
        seq!['\\', 'n']
    } else {
        seq![c]
    }
}

/// The escaped form of a whole string.
pub open spec fn esc(s: Seq<char>) -> Seq<char>
    decreases s.len(),
{
    if s.len() == 0 {
        Seq::empty()
    } else {
        esc_char(s[0]) + esc(s.drop_first())
    }
}

/// Appending one character to a string appends its escaped form.
pub proof fn lemma_esc_snoc(s: Seq<char>, c: char)
    ensures
        esc(s.push(c)) == esc(s) + esc_char(c),
    decreases s.len(),
{
    if s.len() == 0 {
        assert(s.push(c) =~= seq![c]);
        assert(seq![c].drop_first() =~= Seq::<char>::empty());
        assert(esc(Seq::<char>::empty()) == Seq::<char>::empty());
        assert(seq![c][0] == c);
        assert(esc(seq![c]) == esc_char(c) + esc(seq![c].drop_first()));
        assert(esc_char(c) + Seq::<char>::empty() =~= esc_char(c));
        assert(esc(s) + esc_char(c) =~= esc_char(c));
    } else {
        let t = s.drop_first();
        assert(s.push(c)[0] == s[0]);
        assert(s.push(c).drop_first() =~= t.push(c));
        assert(s.push(c).len() > 0);
        assert(esc(s.push(c)) == esc_char(s[0]) + esc(t.push(c)));
        lemma_esc_snoc(t, c);
        assert(esc(s) == esc_char(s[0]) + esc(t));
        assert(esc_char(s[0]) + (esc(t) + esc_char(c)) =~= (esc_char(s[0]) + esc(t)) + esc_char(c));
    }
}

/// Append the escaped form of `v` to `out`; mirrors [`esc`].
pub fn push_escaped(out: &mut String, v: &Vec<char>)
    ensures
        final(out)@ == old(out)@ + esc(v@),
{
    let n: usize = v.len();
    proof {
        assert(v@.take(0) =~= Seq::<char>::empty());
        assert(old(out)@ + esc(v@.take(0)) =~= old(out)@);
    }
    let mut i: usize = 0;
    while i < n
        invariant
            i <= n,
            n == v@.len(),
            out@ == old(out)@ + esc(v@.take(i as int)),
        decreases n - i,
    {
        let ghost out0 = out@;
        let c = v[i];
        if c == '"' {
            push_char(out, '\\');
            push_char(out, '"');
        } else if c == '\\' {
            push_char(out, '\\');
            push_char(out, '\\');
        } else if c == '\n' {
            push_char(out, '\\');
            push_char(out, 'n');
        } else {
            push_char(out, c);
        }
        proof {
            assert(out@ =~= out0 + esc_char(c));
            assert(v@.take(i + 1) =~= v@.take(i as int).push(c));
            lemma_esc_snoc(v@.take(i as int), c);
            assert(out@ =~= old(out)@ + esc(v@.take(i + 1)));
        }
        i = i + 1;
    }
    proof {
        assert(v@.take(n as int) =~= v@);
    }
}

/// Scan a quoted string's body: `s` starts just after the opening
/// quote. On success the result is the decoded content together with
/// the number of characters consumed, closing quote included. `\"`,
/// `\\` and `\n` decode to one character; any other backslash pair is
/// passed through unchanged. No closing quote on the line is `None`.
pub open spec fn scan_quoted(s: Seq<char>) -> Option<(Seq<char>, int)>
    decreases s.len(),
{
    if s.len() == 0 {
        None
    } else if s[0] == '"' {
        Some((Seq::empty(), 1))
    } else if s[0] == '\\' {
        if s.len() == 1 {
            None
        } else {
            let d = if s[1] == '"' {
                seq!['"']
            } else if s[1] == '\\' {
                seq!['\\']
            } else if s[1] == 'n' {
                seq!['\n']
            } else {
                seq!['\\', s[1]]
            };
            match scan_quoted(s.skip(2)) {
                Some(r) => Some((d + r.0, r.1 + 2)),
                None => None,
            }
        }
    } else {
        match scan_quoted(s.skip(1)) {
            Some(r) => Some((seq![s[0]] + r.0, r.1 + 1)),
            None => None,
        }
    }
}

// ---------------------------------------------------------------------
// Lines and their tokens
// ---------------------------------------------------------------------

/// The text cut at every newline; a text with no newline is one line,
/// so the result always holds at least one (possibly empty) line.
pub open spec fn split_lines(s: Seq<char>) -> Seq<Seq<char>>
    decreases s.len(),
{
    if s.len() == 0 {
        seq![Seq::<char>::empty()]
    } else if s[0] == '\n' {
        seq![Seq::<char>::empty()] + split_lines(s.drop_first())
    } else {
        let r = split_lines(s.drop_first());
        seq![seq![s[0]] + r[0]] + r.drop_first()
    }
}

pub proof fn lemma_split_lines_len(s: Seq<char>)
    ensures
        split_lines(s).len() >= 1,
    decreases s.len(),
{
    if s.len() == 0 {
    } else if s[0] == '\n' {
    } else {
        lemma_split_lines_len(s.drop_first());
    }
}

/// `s` with leading line-internal whitespace removed.
pub open spec fn trim_ws(s: Seq<char>) -> Seq<char>
    decreases s.len(),
{
    if s.len() > 0 && is_ws(s[0]) {
        trim_ws(s.drop_first())
    } else {
        s
    }
}

/// `p` is a prefix of `s`.
pub open spec fn starts_with(s: Seq<char>, p: Seq<char>) -> bool {
    s.len() >= p.len() && s.take(p.len() as int) == p
}

pub open spec fn kw_msgid() -> Seq<char> {
    seq!['m', 's', 'g', 'i', 'd']
}

pub open spec fn kw_msgstr() -> Seq<char> {
    seq!['m', 's', 'g', 's', 't', 'r']
}

/// Outcome of reading the quoted part of a line: the decoded content,
/// a malformed token, or a string with no closing quote.
pub enum QuotedRes {
    Good(Seq<char>),
    BadTok,
    BadStr,
}

/// Read a quoted string that must fill the rest of the line: `r`
/// starts at the expected opening quote, and after the closing quote
/// only whitespace may follow.
pub open spec fn read_quoted(r: Seq<char>) -> QuotedRes {
    if r.len() == 0 || r[0] != '"' {
        QuotedRes::BadTok
    } else {
        match scan_quoted(r.skip(1)) {
            None => QuotedRes::BadStr,
            Some(p) => {
                if all_ws(r.skip(1 + p.1)) {
                    QuotedRes::Good(p.0)
                } else {
                    QuotedRes::BadTok
                }
            },
        }
    }
}

/// The token one line stands for.
pub enum LineTok {
    /// Empty, whitespace-only, or a `#` comment.
    Blank,
    /// `msgid "..."` with its decoded content.
    MsgidTok(Seq<char>),
    /// `msgstr "..."` with its decoded content.
    MsgstrTok(Seq<char>),
    /// A bare `"..."` continuation line with its decoded content.
    ContTok(Seq<char>),
    /// No token of the grammar.
    BadTok,
    /// A quoted string with no closing quote.
    BadStr,
}

pub open spec fn quoted_tok(r: Seq<char>, q: QuotedRes) -> LineTok {
    match q {
        QuotedRes::Good(c) => {
            if r == kw_msgid() {
                LineTok::MsgidTok(c)
            } else if r == kw_msgstr() {
                LineTok::MsgstrTok(c)
            } else {
                LineTok::ContTok(c)
            }
        },
        QuotedRes::BadTok => LineTok::BadTok,
        QuotedRes::BadStr => LineTok::BadStr,
    }
}

/// Classify one line of the catalog.
pub open spec fn classify(line: Seq<char>) -> LineTok {
    let t = trim_ws(line);
    if t.len() == 0 || t[0] == '#' {
        LineTok::Blank
    } else if t[0] == '"' {
        quoted_tok(Seq::empty(), read_quoted(t))
    } else if starts_with(t, kw_msgstr()) {
        quoted_tok(kw_msgstr(), read_quoted(trim_ws(t.skip(6))))
    } else if starts_with(t, kw_msgid()) {
        quoted_tok(kw_msgid(), read_quoted(trim_ws(t.skip(5))))
    } else {
        LineTok::BadTok
    }
}

// ---------------------------------------------------------------------
// The entry state machine
// ---------------------------------------------------------------------

/// Parser state between lines: outside any entry, inside a `msgid`
/// (keyword line seen, continuations may follow), or inside a
/// `msgstr` of an entry whose `msgid` is already complete.
pub enum PState {
    Idle,
    GotId(Seq<char>),
    GotStr(Seq<char>, Seq<char>),
}

/// One raw catalog entry: `msgid` content and `msgstr` content, with
/// duplicates not yet folded and the empty `msgstr` not yet mapped to
/// "untranslated".
pub type RawEntry = (Seq<char>, Seq<char>);

/// Run the state machine over `lines` from line index `i` (0-based; the
/// reported line numbers are 1-based) in state `st`, with the entries
/// already completed in `acc`.
pub open spec fn run(lines: Seq<Seq<char>>, i: int, st: PState, acc: Seq<RawEntry>) -> Result<
    Seq<RawEntry>,
    ParseError,
>
    decreases lines.len() - i,
{
    if i < 0 || i >= lines.len() {
        match st {
            PState::Idle => Ok(acc),
            PState::GotId(_) => Err(ParseError::UnterminatedEntry { line: lines.len() as usize }),
            PState::GotStr(id, s) => Ok(acc.push((id, s))),
        }
    } else {
        let ln = (i + 1) as usize;
        match classify(lines[i]) {
            LineTok::Blank => run(lines, i + 1, st, acc),
            LineTok::MsgidTok(c) => match st {
                PState::Idle => run(lines, i + 1, PState::GotId(c), acc),
                PState::GotId(_) => Err(ParseError::UnexpectedToken { line: ln }),
                PState::GotStr(id, s) => run(lines, i + 1, PState::GotId(c), acc.push((id, s))),
            },
            LineTok::MsgstrTok(c) => match st {
                PState::Idle => Err(ParseError::OrphanMsgstr { line: ln }),
                PState::GotId(id) => run(lines, i + 1, PState::GotStr(id, c), acc),
                PState::GotStr(_, _) => Err(ParseError::UnexpectedToken { line: ln }),
            },
            LineTok::ContTok(c) => match st {
                PState::Idle => Err(ParseError::UnexpectedToken { line: ln }),
                PState::GotId(id) => run(lines, i + 1, PState::GotId(id + c), acc),
                PState::GotStr(id, s) => run(lines, i + 1, PState::GotStr(id, s + c), acc),
            },
            LineTok::BadTok => Err(ParseError::UnexpectedToken { line: ln }),
            LineTok::BadStr => Err(ParseError::UnterminatedString { line: ln }),
        }
    }
}

// ---------------------------------------------------------------------
// Deduplication
// ---------------------------------------------------------------------

/// One finished catalog entry: the `msgid` key and the translation,
/// `None` where the `msgstr` was empty (untranslated).
pub type EntryV = (Seq<char>, Option<Seq<char>>);

/// Map a raw entry to its finished form: an empty `msgstr` means
/// untranslated.
pub open spec fn entry_of(p: RawEntry) -> EntryV {
    (p.0, if p.1.len() == 0 { None } else { Some(p.1) })
}

/// Index of the first entry with key `k`, or `-1`.
pub open spec fn find_key(es: Seq<EntryV>, k: Seq<char>) -> int
    decreases es.len(),
{
    if es.len() == 0 {
        -1
    } else if es[0].0 == k {
        0
    } else {
        let r = find_key(es.drop_first(), k);
        if r < 0 {
            -1
        } else {
            r + 1
        }
    }
}

/// [`find_key`] returns either `-1` with no entry matching, or the
/// first matching index.
pub proof fn lemma_find_key(es: Seq<EntryV>, k: Seq<char>)
    ensures
        find_key(es, k) == -1 ==> forall|j: int| 0 <= j < es.len() ==> es[j].0 != k,
        find_key(es, k) >= 0 ==> 0 <= find_key(es, k) < es.len() && es[find_key(es, k)].0 == k
            && forall|j: int| 0 <= j < find_key(es, k) ==> es[j].0 != k,
    decreases es.len(),
{
    if es.len() == 0 {
    } else if es[0].0 == k {
    } else {
        let t = es.drop_first();
        lemma_find_key(t, k);
        let r = find_key(es, k);
        if find_key(t, k) < 0 {
            assert(r == -1);
            assert forall|j: int| 0 <= j < es.len() implies es[j].0 != k by {
                if j > 0 {
                    assert(es[j] == t[j - 1]);
                }
            }
        } else {
            assert(r == find_key(t, k) + 1);
            assert(es[r] == t[r - 1]);
            assert forall|j: int| 0 <= j < r implies es[j].0 != k by {
                if j > 0 {
                    assert(es[j] == t[j - 1]);
                }
            }
        }
    }
}

/// Insert `e`: overwrite the entry with the same key in place, or
/// append it when the key is new.
pub open spec fn upsert(es: Seq<EntryV>, e: EntryV) -> Seq<EntryV> {
    let j = find_key(es, e.0);
    if j < 0 {
        es.push(e)
    } else {
        es.update(j, e)
    }
}

/// Fold duplicate `msgid`s: keys keep the order of their first
/// occurrence, and each key keeps the value of its last occurrence.
pub open spec fn dedup(raw: Seq<RawEntry>) -> Seq<EntryV>
    decreases raw.len(),
{
    if raw.len() == 0 {
        Seq::empty()
    } else {
        upsert(dedup(raw.drop_last()), entry_of(raw.last()))
    }
}

// ---------------------------------------------------------------------
// The whole parse
// ---------------------------------------------------------------------

/// What parsing one catalog text means: split into lines, run the
/// state machine from an idle start, and fold duplicate keys.
pub open spec fn parse_spec(text: Seq<char>) -> Result<Seq<EntryV>, ParseError> {
    match run(split_lines(text), 0, PState::Idle, Seq::empty()) {
        Ok(raw) => Ok(dedup(raw)),
        Err(e) => Err(e),
    }
}

/// Well-formed finished entries: `msgid` keys are unique, and no
/// recorded translation is the empty string (that is `None`).
pub open spec fn wf_entries(es: Seq<EntryV>) -> bool {
    (forall|i: int, j: int| 0 <= i < j < es.len() ==> es[i].0 != es[j].0) && (forall|i: int|
        0 <= i < es.len() ==> ((#[trigger] es[i]).1 matches Some(s) ==> s.len() > 0))
}

/// Whatever the raw entries were, deduplication yields well-formed
/// finished entries.
pub proof fn lemma_dedup_wf(raw: Seq<RawEntry>)
    ensures
        wf_entries(dedup(raw)),
    decreases raw.len(),
{
    if raw.len() == 0 {
    } else {
        lemma_dedup_wf(raw.drop_last());
        let es = dedup(raw.drop_last());
        let e = entry_of(raw.last());
        lemma_find_key(es, e.0);
        let j = find_key(es, e.0);
        let es2 = dedup(raw);
        if j < 0 {
            assert(es2 == es.push(e));
            assert forall|a: int, b: int| 0 <= a < b < es2.len() implies es2[a].0 != es2[b].0 by {
                if b < es.len() {
                    assert(es2[a] == es[a] && es2[b] == es[b]);
                } else {
                    assert(es2[a] == es[a] && es2[b] == e);
                    assert(es[a].0 != e.0);
                }
            }
            assert forall|a: int| 0 <= a < es2.len() implies ((#[trigger] es2[a]).1 matches Some(s)
                ==> s.len() > 0) by {
                if a < es.len() {
                    assert(es2[a] == es[a]);
                } else {
                    assert(es2[a] == e);
                }
            }
        } else {
            assert(es2 == es.update(j, e));
            assert(es[j].0 == e.0);
            assert(forall|m: int| 0 <= m < es2.len() ==> (#[trigger] es2[m]).0 == es[m].0);
            assert forall|a: int| 0 <= a < es2.len() implies ((#[trigger] es2[a]).1 matches Some(s)
                ==> s.len() > 0) by {
                if a != j {
                    assert(es2[a] == es[a]);
                } else {
                    assert(es2[a] == e);
                }
            }
        }
    }
}

/// A catalog the parser accepts always yields well-formed entries.
pub proof fn lemma_parse_wf(text: Seq<char>)
    ensures
        parse_spec(text) matches Ok(es) ==> wf_entries(es),
{
    match run(split_lines(text), 0, PState::Idle, Seq::empty()) {
        Ok(raw) => {
            lemma_dedup_wf(raw);
        },
        Err(_) => {},
    }
}

// ---------------------------------------------------------------------
// Serialization back to catalog text
// ---------------------------------------------------------------------

/// One entry written back as catalog text: a `msgid` line and a
/// `msgstr` line, each quoted and escaped, an untranslated entry as
/// the empty `msgstr`.
pub open spec fn ser_entry(e: EntryV) -> Seq<char> {
    kw_msgid() + seq![' ', '"'] + esc(e.0) + seq!['"', '\n'] + kw_msgstr() + seq![' ', '"'] + (
    match e.1 {
        Some(s) => esc(s),
        None => Seq::<char>::empty(),
    }) + seq!['"', '\n']
}

/// The entries from index `k` on, written back as catalog text.
pub open spec fn ser_entries(es: Seq<EntryV>, k: int) -> Seq<char>
    decreases es.len() - k,
{
    if k < 0 || k >= es.len() {
        Seq::empty()
    } else {
        ser_entry(es[k]) + ser_entries(es, k + 1)
    }
}

// ---------------------------------------------------------------------
// Executable scanning
// ---------------------------------------------------------------------

/// A scan result moved `off` characters and `pre` decoded characters
/// back toward the start of the line.
pub open spec fn scan_prep(pre: Seq<char>, off: int, r: Option<(Seq<char>, int)>) -> Option<
    (Seq<char>, int),
> {
    match r {
        None => None,
        Some(p) => Some((pre + p.0, p.1 + off)),
    }
}

proof fn lemma_prep_prep(a: Seq<char>, o1: int, b: Seq<char>, o2: int, r: Option<(Seq<char>, int)>)
    ensures
        scan_prep(a, o1, scan_prep(b, o2, r)) == scan_prep(a + b, o1 + o2, r),
{
    match r {
        None => {},
        Some(p) => {
            assert(a + (b + p.0) =~= (a + b) + p.0);
        },
    }
}

/// A successful scan consumes between 1 and all of the characters.
pub proof fn lemma_scan_len(s: Seq<char>)
    ensures
        scan_quoted(s) matches Some(p) ==> 1 <= p.1 <= s.len(),
    decreases s.len(),
{
    if s.len() == 0 {
    } else if s[0] == '"' {
    } else if s[0] == '\\' {
        if s.len() > 1 {
            lemma_scan_len(s.skip(2));
        }
    } else {
        lemma_scan_len(s.skip(1));
    }
}

/// Scan a quoted string's body starting at index `start` of the line
/// (just after the opening quote); mirrors [`scan_quoted`] on
/// `line@.skip(start)`, with the consumed count relative to `start`.
fn scan_from(line: &Vec<char>, start: usize) -> (res: Option<(Vec<char>, usize)>)
    requires
        start <= line@.len(),
    ensures
        res is None ==> scan_quoted(line@.skip(start as int)) is None,
        res matches Some(p) ==> scan_quoted(line@.skip(start as int)) == Some((p.0@, p.1 as int)),
{
    let n: usize = line.len();
    let mut j: usize = start;
    let mut out: Vec<char> = Vec::new();
    loop
        invariant
            start <= j <= n,
            n == line@.len(),
            scan_quoted(line@.skip(start as int)) == scan_prep(
                out@,
                j - start,
                scan_quoted(line@.skip(j as int)),
            ),
        decreases n - j,
    {
        if j == n {
            assert(line@.skip(j as int) =~= Seq::<char>::empty());
            return None;
        }
        let ghost pre = out@;
        let ghost jj = j as int;
        let c = line[j];
        assert(line@.skip(jj)[0] == c);
        if c == '"' {
            proof {
                assert(scan_quoted(line@.skip(jj)) == Some((Seq::<char>::empty(), 1int)));
                assert(out@ + Seq::<char>::empty() =~= out@);
            }
            return Some((out, j + 1 - start));
        } else if c == '\\' {
            if j + 1 == n {
                assert(line@.skip(jj).len() == 1);
                return None;
            }
            let d = line[j + 1];
            assert(line@.skip(jj)[1] == d);
            if d == '"' {
                out.push('"');
            } else if d == '\\' {
                out.push('\\');
            } else if d == 'n' {
                out.push('\n');
            } else {
                out.push('\\');
                out.push(d);
            }
            let ghost dseq = out@.skip(pre.len() as int);
            proof {
                assert(out@ =~= pre + dseq);
                assert(line@.skip(jj).skip(2) =~= line@.skip(jj + 2));
                assert(scan_quoted(line@.skip(jj)) == scan_prep(
                    dseq,
                    2,
                    scan_quoted(line@.skip(jj + 2)),
                ));
                lemma_prep_prep(pre, jj - start, dseq, 2, scan_quoted(line@.skip(jj + 2)));
            }
            j = j + 2;
        } else {
            out.push(c);
            proof {
                assert(out@ =~= pre + seq![c]);
                assert(line@.skip(jj).skip(1) =~= line@.skip(jj + 1));
                assert(scan_quoted(line@.skip(jj)) == scan_prep(
                    seq![c],
                    1,
                    scan_quoted(line@.skip(jj + 1)),
                ));
                lemma_prep_prep(pre, jj - start, seq![c], 1, scan_quoted(line@.skip(jj + 1)));
            }
            j = j + 1;
        }
    }
}

// ---------------------------------------------------------------------
// Executable line classification
// ---------------------------------------------------------------------

proof fn lemma_trim_skip(s: Seq<char>, i: int)
    requires
        0 <= i <= s.len(),
        forall|k: int| 0 <= k < i ==> is_ws(s[k]),
        i < s.len() ==> !is_ws(s[i]),
    ensures
        trim_ws(s) == s.skip(i),
    decreases i,
{
    if i == 0 {
        assert(s.skip(0) =~= s);
    } else {
        assert(is_ws(s[0]));
        let t = s.drop_first();
        assert(forall|k: int| 0 <= k < i - 1 ==> s[k + 1] == t[k] && is_ws(#[trigger] t[k]));
        lemma_trim_skip(t, i - 1);
        assert(t.skip(i - 1) =~= s.skip(i));
    }
}

/// First index at or after `from` whose character is not whitespace.
fn trim_from(line: &Vec<char>, from: usize) -> (i: usize)
    requires
        from <= line@.len(),
    ensures
        from <= i <= line@.len(),
        i < line@.len() ==> !is_ws(line@[i as int]),
        trim_ws(line@.skip(from as int)) == line@.skip(i as int),
{
    let n: usize = line.len();
    let mut i: usize = from;
    while i < n && is_ws_char(line[i])
        invariant
            from <= i <= n,
            n == line@.len(),
            forall|k: int| from <= k < i ==> is_ws(line@[k]),
        decreases n - i,
    {
        i = i + 1;
    }
    proof {
        let s = line@.skip(from as int);
        assert(forall|k: int| 0 <= k < i - from ==> s[k] == line@[k + from] && is_ws(#[trigger] s[k]));
        lemma_trim_skip(s, i - from);
        assert(s.skip(i - from) =~= line@.skip(i as int));
    }
    i
}

/// All characters from `from` to the end of the line are whitespace?
fn ws_to_end(line: &Vec<char>, from: usize) -> (r: bool)
    requires
        from <= line@.len(),
    ensures
        r == all_ws(line@.skip(from as int)),
{
    let n: usize = line.len();
    let mut i: usize = from;
    while i < n
        invariant
            from <= i <= n,
            n == line@.len(),
            forall|k: int| from <= k < i ==> is_ws(line@[k]),
        decreases n - i,
    {
        if !is_ws_char(line[i]) {
            assert(line@.skip(from as int)[i - from] == line@[i as int]);
            return false;
        }
        i = i + 1;
    }
    proof {
        let s = line@.skip(from as int);
        assert(forall|k: int| 0 <= k < s.len() ==> s[k] == line@[k + from] && is_ws(#[trigger] s[k]));
    }
    true
}

/// Executable counterpart of [`QuotedRes`].
pub enum QuotedResE {
    Good(Vec<char>),
    BadTok,
    BadStr,
}

pub open spec fn quoted_res_view(q: &QuotedResE) -> QuotedRes {
    match q {
        QuotedResE::Good(v) => QuotedRes::Good(v@),
        QuotedResE::BadTok => QuotedRes::BadTok,
        QuotedResE::BadStr => QuotedRes::BadStr,
    }
}

/// Read a quoted string filling the rest of the line from index `j`;
/// mirrors [`read_quoted`] on `line@.skip(j)`.
fn read_quoted_from(line: &Vec<char>, j: usize) -> (q: QuotedResE)
    requires
        j <= line@.len(),
    ensures
        quoted_res_view(&q) == read_quoted(line@.skip(j as int)),
{
    let n: usize = line.len();
    let ghost r = line@.skip(j as int);
    if j == n {
        assert(r.len() == 0);
        return QuotedResE::BadTok;
    }
    assert(r[0] == line@[j as int]);
    if line[j] != '"' {
        return QuotedResE::BadTok;
    }
    proof {
        assert(r.skip(1) =~= line@.skip(j as int + 1));
        lemma_scan_len(r.skip(1));
    }
    match scan_from(line, j + 1) {
        None => QuotedResE::BadStr,
        Some((content, used)) => {
            assert(j + 1 + used <= n);
            proof {
                assert(r.skip(1 + used as int) =~= line@.skip(j as int + 1 + used as int));
            }
            if ws_to_end(line, j + 1 + used) {
                QuotedResE::Good(content)
            } else {
                QuotedResE::BadTok
            }
        },
    }
}

/// Executable counterpart of [`LineTok`].
pub enum LineTokE {
    Blank,
    MsgidTok(Vec<char>),
    MsgstrTok(Vec<char>),
    ContTok(Vec<char>),
    BadTok,
    BadStr,
}

pub open spec fn line_tok_view(t: &LineTokE) -> LineTok {
    match t {
        LineTokE::Blank => LineTok::Blank,
        LineTokE::MsgidTok(v) => LineTok::MsgidTok(v@),
        LineTokE::MsgstrTok(v) => LineTok::MsgstrTok(v@),
        LineTokE::ContTok(v) => LineTok::ContTok(v@),
        LineTokE::BadTok => LineTok::BadTok,
        LineTokE::BadStr => LineTok::BadStr,
    }
}

/// Classify one line; mirrors [`classify`].
pub fn classify_line(line: &Vec<char>) -> (t: LineTokE)
    ensures
        line_tok_view(&t) == classify(line@),
{
    let n: usize = line.len();
    proof {
        assert(line@.skip(0) =~= line@);
    }
    let i = trim_from(line, 0);
    let ghost tr = trim_ws(line@);
    if i == n {
        assert(tr.len() == 0);
        return LineTokE::Blank;
    }
    assert(tr[0] == line@[i as int]);
    let c0 = line[i];
    if c0 == '#' {
        return LineTokE::Blank;
    }
    if c0 == '"' {
        let q = read_quoted_from(line, i);
        proof {
            assert(kw_msgid().len() == 5);
            assert(kw_msgstr().len() == 6);
        }
        return match q {
            QuotedResE::Good(c) => LineTokE::ContTok(c),
            QuotedResE::BadTok => LineTokE::BadTok,
            QuotedResE::BadStr => LineTokE::BadStr,
        };
    }
    let is_msgstr: bool = n - i >= 6 && line[i] == 'm' && line[i + 1] == 's' && line[i + 2] == 'g'
        && line[i + 3] == 's' && line[i + 4] == 't' && line[i + 5] == 'r';
    proof {
        if is_msgstr {
            assert(tr.take(6) =~= kw_msgstr()) by {
                assert(forall|k: int| 0 <= k < 6 ==> tr[k] == line@[i + k]);
            }
        } else {
            if tr.len() >= 6 {
                assert(forall|k: int| 0 <= k < 6 ==> #[trigger] tr.take(6)[k] == line@[i + k]);
                assert(tr.take(6) != kw_msgstr()) by {
                    if tr.take(6) == kw_msgstr() {
                        assert(line@[i as int] == 'm' && line@[i + 1] == 's' && line@[i + 2] == 'g'
                            && line@[i + 3] == 's' && line@[i + 4] == 't' && line@[i + 5] == 'r');
                    }
                }
            }
        }
    }
    if is_msgstr {
        let j = trim_from(line, i + 6);
        proof {
            assert(tr.skip(6) =~= line@.skip(i + 6));
        }
        let q = read_quoted_from(line, j);
        proof {
            assert(kw_msgid().len() == 5);
        }
        return match q {
            QuotedResE::Good(c) => LineTokE::MsgstrTok(c),
            QuotedResE::BadTok => LineTokE::BadTok,
            QuotedResE::BadStr => LineTokE::BadStr,
        };
    }
    let is_msgid: bool = n - i >= 5 && line[i] == 'm' && line[i + 1] == 's' && line[i + 2] == 'g'
        && line[i + 3] == 'i' && line[i + 4] == 'd';
    proof {
        if is_msgid {
            assert(tr.take(5) =~= kw_msgid()) by {
                assert(forall|k: int| 0 <= k < 5 ==> tr[k] == line@[i + k]);
            }
        } else {
            if tr.len() >= 5 {
                assert(forall|k: int| 0 <= k < 5 ==> #[trigger] tr.take(5)[k] == line@[i + k]);
                assert(tr.take(5) != kw_msgid()) by {
                    if tr.take(5) == kw_msgid() {
                        assert(line@[i as int] == 'm' && line@[i + 1] == 's' && line@[i + 2] == 'g'
                            && line@[i + 3] == 'i' && line@[i + 4] == 'd');
                    }
                }
            }
        }
    }
    if is_msgid {
        let j = trim_from(line, i + 5);
        proof {
            assert(tr.skip(5) =~= line@.skip(i + 5));
            assert(kw_msgid() != kw_msgstr());
        }
        let q = read_quoted_from(line, j);
        return match q {
            QuotedResE::Good(c) => LineTokE::MsgidTok(c),
            QuotedResE::BadTok => LineTokE::BadTok,
            QuotedResE::BadStr => LineTokE::BadStr,
        };
    }
    LineTokE::BadTok
}

// ---------------------------------------------------------------------
// Executable line splitting and state machine
// ---------------------------------------------------------------------

/// The views of a vector of character vectors.
pub open spec fn line_views(s: Seq<Vec<char>>) -> Seq<Seq<char>> {
    s.map_values(|v: Vec<char>| v@)
}

/// The views of a vector of raw entries.
pub open spec fn raw_views(s: Seq<(Vec<char>, Vec<char>)>) -> Seq<RawEntry> {
    s.map_values(|p: (Vec<char>, Vec<char>)| (p.0@, p.1@))
}

/// Cut the text at every newline; mirrors [`split_lines`].
pub fn split_text(text: &Vec<char>) -> (r: Vec<Vec<char>>)
    ensures
        line_views(r@) == split_lines(text@),
{
    let n: usize = text.len();
    let mut out: Vec<Vec<char>> = Vec::new();
    let mut cur: Vec<char> = Vec::new();
    let mut i: usize = 0;
    proof {
        assert(text@.skip(0) =~= text@);
        lemma_split_lines_len(text@);
        let rem0 = split_lines(text@);
        assert(cur@ + rem0[0] =~= rem0[0]);
        assert(line_views(out@) =~= Seq::<Seq<char>>::empty());
        assert(line_views(out@) + seq![cur@ + rem0[0]] + rem0.drop_first() =~= rem0);
    }
    while i < n
        invariant
            i <= n,
            n == text@.len(),
            split_lines(text@.skip(i as int)).len() >= 1,
            split_lines(text@) == line_views(out@) + seq![cur@ + split_lines(text@.skip(i as int))[0]]
                + split_lines(text@.skip(i as int)).drop_first(),
        decreases n - i,
    {
        let ghost out0 = out@;
        let ghost cur0 = cur@;
        let ghost rem = split_lines(text@.skip(i as int));
        let c = text[i];
        assert(text@.skip(i as int)[0] == c);
        proof {
            assert(text@.skip(i as int).drop_first() =~= text@.skip(i as int + 1));
            lemma_split_lines_len(text@.skip(i as int + 1));
        }
        let ghost rem1 = split_lines(text@.skip(i as int + 1));
        if c == '\n' {
            proof {
                assert(rem =~= seq![Seq::<char>::empty()] + rem1);
                assert(rem[0] =~= Seq::<char>::empty());
                assert(cur0 + rem[0] =~= cur0);
            }
            out.push(cur);
            cur = Vec::new();
            proof {
                assert(line_views(out@) =~= line_views(out0).push(cur0));
                assert(split_lines(text@) =~= line_views(out@) + seq![cur@ + rem1[0]]
                    + rem1.drop_first());
            }
        } else {
            proof {
                assert(rem =~= seq![seq![c] + rem1[0]] + rem1.drop_first());
            }
            cur.push(c);
            proof {
                assert(cur@ + rem1[0] =~= cur0 + rem[0]);
                assert(split_lines(text@) =~= line_views(out@) + seq![cur@ + rem1[0]]
                    + rem1.drop_first());
            }
        }
        i = i + 1;
    }
    proof {
        assert(text@.skip(n as int) =~= Seq::<char>::empty());
        let rem = split_lines(text@.skip(n as int));
        assert(rem =~= seq![Seq::<char>::empty()]);
        assert(cur@ + rem[0] =~= cur@);
    }
    out.push(cur);
    proof {
        assert(line_views(out@) =~= split_lines(text@));
    }
    out
}

/// Executable counterpart of [`PState`].
enum PStateE {
    Idle,
    GotId(Vec<char>),
    GotStr(Vec<char>, Vec<char>),
}

spec fn pstate_view(st: &PStateE) -> PState {
    match st {
        PStateE::Idle => PState::Idle,
        PStateE::GotId(id) => PState::GotId(id@),
        PStateE::GotStr(id, s) => PState::GotStr(id@, s@),
    }
}

/// Run the entry state machine over the lines; mirrors [`run`] started
/// in the idle state.
pub fn run_lines(lines: &Vec<Vec<char>>) -> (r: Result<Vec<(Vec<char>, Vec<char>)>, ParseError>)
    ensures
        r matches Ok(v) ==> run(line_views(lines@), 0, PState::Idle, Seq::empty()) == Ok::<
            Seq<RawEntry>,
            ParseError,
        >(raw_views(v@)),
        r matches Err(e) ==> run(line_views(lines@), 0, PState::Idle, Seq::empty()) == Err::<
            Seq<RawEntry>,
            ParseError,
        >(e),
{
    let ghost lv = line_views(lines@);
    let n: usize = lines.len();
    let mut st = PStateE::Idle;
    let mut acc: Vec<(Vec<char>, Vec<char>)> = Vec::new();
    proof {
        assert(raw_views(acc@) =~= Seq::<RawEntry>::empty());
    }
    let mut i: usize = 0;
    while i < n
        invariant
            i <= n,
            n == lv.len(),
            lv == line_views(lines@),
            run(lv, 0, PState::Idle, Seq::empty()) == run(lv, i as int, pstate_view(&st), raw_views(acc@)),
        decreases n - i,
    {
        let ghost st0 = pstate_view(&st);
        let ghost acc0 = raw_views(acc@);
        let tok = classify_line(&lines[i]);
        assert(lv[i as int] == lines@[i as int]@);
        match tok {
            LineTokE::Blank => {},
            LineTokE::MsgidTok(c) => {
                let prev = st;
                st = PStateE::Idle;
                match prev {
                    PStateE::Idle => {
                        st = PStateE::GotId(c);
                    },
                    PStateE::GotId(_) => {
                        return Err(ParseError::UnexpectedToken { line: i + 1 });
                    },
                    PStateE::GotStr(id, s) => {
                        acc.push((id, s));
                        proof {
                            assert(raw_views(acc@) =~= acc0.push(
                                (st0->GotStr_0, st0->GotStr_1),
                            ));
                        }
                        st = PStateE::GotId(c);
                    },
                }
            },
            LineTokE::MsgstrTok(c) => {
                let prev = st;
                st = PStateE::Idle;
                match prev {
                    PStateE::Idle => {
                        return Err(ParseError::OrphanMsgstr { line: i + 1 });
                    },
                    PStateE::GotId(id) => {
                        st = PStateE::GotStr(id, c);
                    },
                    PStateE::GotStr(_, _) => {
                        return Err(ParseError::UnexpectedToken { line: i + 1 });
                    },
                }
            },
            LineTokE::ContTok(c) => {
                let prev = st;
                st = PStateE::Idle;
                match prev {
                    PStateE::Idle => {
                        return Err(ParseError::UnexpectedToken { line: i + 1 });
                    },
                    PStateE::GotId(mut id) => {
                        let mut cc = c;
                        id.append(&mut cc);
                        st = PStateE::GotId(id);
                    },
                    PStateE::GotStr(id, mut s) => {
                        let mut cc = c;
                        s.append(&mut cc);
                        st = PStateE::GotStr(id, s);
                    },
                }
            },
            LineTokE::BadTok => {
                return Err(ParseError::UnexpectedToken { line: i + 1 });
            },
            LineTokE::BadStr => {
                return Err(ParseError::UnterminatedString { line: i + 1 });
            },
        }
        i = i + 1;
    }
    match st {
        PStateE::Idle => Ok(acc),
        PStateE::GotId(_) => Err(ParseError::UnterminatedEntry { line: n }),
        PStateE::GotStr(id, s) => {
            let ghost acc0 = raw_views(acc@);
            let ghost idv = id@;
            let ghost sv = s@;
            acc.push((id, s));
            proof {
                assert(raw_views(acc@) =~= acc0.push((idv, sv)));
            }
            Ok(acc)
        },
    }
}

} // verus!
