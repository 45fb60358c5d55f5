//! The serialize-then-parse round trip.
//!
//! [`lemma_roundtrip`] is the law: writing well-formed entries back
//! as catalog text with [`ser_entries`] and parsing that text with
//! [`parse_spec`] yields exactly the entries again. Since the parser
//! only ever produces well-formed entries ([`lemma_parse_wf`]),
//! parse-serialize-parse is the identity on every accepted catalog.

use vstd::prelude::*;
use crate::chars::is_ws;
use crate::error::ParseError;
use crate::parser::{
    classify, dedup, entry_of, esc, esc_char, find_key, kw_msgid, kw_msgstr, lemma_find_key,
    parse_spec, read_quoted, run, scan_quoted, ser_entries, split_lines, trim_ws,
    wf_entries, EntryV, LineTok, PState, QuotedRes, RawEntry,
};

verus! {

/// The raw entry a finished entry prints as: an untranslated entry
/// becomes the empty `msgstr`.
pub open spec fn raw_of(es: Seq<EntryV>) -> Seq<RawEntry> {
    es.map_values(
        |e: EntryV|
            (
                e.0,
                match e.1 {
                    Some(s) => s,
                    None => Seq::<char>::empty(),
                },
            ),
    )
}

/// The `msgid` line one entry prints as, without its newline.
pub open spec fn id_line(e: EntryV) -> Seq<char> {
    kw_msgid() + seq![' ', '"'] + esc(e.0) + seq!['"']
}

/// The `msgstr` line one entry prints as, without its newline.
pub open spec fn str_line(e: EntryV) -> Seq<char> {
    kw_msgstr() + seq![' ', '"'] + (match e.1 {
        Some(s) => esc(s),
        None => Seq::<char>::empty(),
    }) + seq!['"']
}

/// The lines the entries from index `k` on print as.
pub open spec fn lines_of(es: Seq<EntryV>, k: int) -> Seq<Seq<char>>
    decreases es.len() - k,
{
    if k < 0 || k >= es.len() {
        Seq::empty()
    } else {
        seq![id_line(es[k]), str_line(es[k])] + lines_of(es, k + 1)
    }
}

proof fn lemma_lines_of_len(es: Seq<EntryV>, k: int)
    requires
        0 <= k <= es.len(),
    ensures
        lines_of(es, k).len() == 2 * (es.len() - k),
    decreases es.len() - k,
{
    if k < es.len() {
        lemma_lines_of_len(es, k + 1);
    }
}

/// Escaped text never holds a raw newline.
proof fn lemma_esc_no_nl(s: Seq<char>)
    ensures
        forall|i: int| 0 <= i < esc(s).len() ==> esc(s)[i] != '\n',
    decreases s.len(),
{
    if s.len() == 0 {
    } else {
        lemma_esc_no_nl(s.drop_first());
        let d = esc_char(s[0]);
        assert(esc(s) == d + esc(s.drop_first()));
        assert forall|i: int| 0 <= i < esc(s).len() implies esc(s)[i] != '\n' by {
            if i < d.len() {
                assert(esc(s)[i] == d[i]);
            } else {
                assert(esc(s)[i] == esc(s.drop_first())[i - d.len()]);
            }
        }
    }
}

/// Scanning an escaped string followed by its closing quote decodes
/// the original string and stops right after the quote.
proof fn lemma_scan_esc(s: Seq<char>, rest: Seq<char>)
    ensures
        scan_quoted(esc(s) + seq!['"'] + rest) == Some((s, (esc(s).len() + 1) as int)),
    decreases s.len(),
{
    let w = esc(s) + seq!['"'] + rest;
    if s.len() == 0 {
        assert(w =~= seq!['"'] + rest);
        assert(w[0] == '"');
        assert(scan_quoted(w) == Some((Seq::<char>::empty(), 1int)));
        assert(Seq::<char>::empty() =~= s);
    } else {
        let t = s.drop_first();
        lemma_scan_esc(t, rest);
        let d = esc_char(s[0]);
        assert(esc(s) == d + esc(t));
        let w2 = esc(t) + seq!['"'] + rest;
        if s[0] == '"' || s[0] == '\\' || s[0] == '\n' {
            assert(d.len() == 2 && d[0] == '\\');
            assert(w[0] == '\\');
            assert(w[1] == d[1]);
            assert(w.len() >= 2);
            assert(w.skip(2) =~= w2);
            assert(scan_quoted(w2) == Some((t, (esc(t).len() + 1) as int)));
            let dec = if w[1] == '"' {
                seq!['"']
            } else if w[1] == '\\' {
                seq!['\\']
            } else if w[1] == 'n' {
                seq!['\n']
            } else {
                seq!['\\', w[1]]
            };
            assert(dec =~= seq![s[0]]);
            assert(scan_quoted(w) == Some((dec + t, (esc(t).len() + 1 + 2) as int)));
            assert(dec + t =~= s);
            assert(esc(t).len() + 1 + 2 == esc(s).len() + 1);
        } else {
            assert(d =~= seq![s[0]]);
            assert(w[0] == s[0]);
            assert(w[0] != '"' && w[0] != '\\');
            assert(w.skip(1) =~= w2);
            assert(scan_quoted(w2) == Some((t, (esc(t).len() + 1) as int)));
            assert(scan_quoted(w) == Some((seq![w[0]] + t, (esc(t).len() + 1 + 1) as int)));
            assert(seq![w[0]] + t =~= s);
            assert(esc(t).len() + 1 + 1 == esc(s).len() + 1);
        }
    }
}

/// A printed `msgid` line classifies as exactly its `msgid` token.
proof fn lemma_classify_id_line(e: EntryV)
    ensures
        classify(id_line(e)) == LineTok::MsgidTok(e.0),
{
    let t = id_line(e);
    assert(t[0] == 'm' && t[1] == 's' && t[2] == 'g' && t[3] == 'i' && t[4] == 'd');
    assert(!is_ws('m'));
    assert(trim_ws(t) == t);
    assert(t.len() >= 7);
    assert(kw_msgstr()[3] == 's');
    assert(t.len() >= 6 ==> t.take(6)[3] == 'i');
    assert(!crate::parser::starts_with(t, kw_msgstr()));
    assert(t.take(5) =~= kw_msgid());
    assert(crate::parser::starts_with(t, kw_msgid()));
    let r0 = t.skip(5);
    assert(r0 =~= seq![' ', '"'] + esc(e.0) + seq!['"']);
    assert(is_ws(r0[0]));
    let r = r0.drop_first();
    assert(r =~= seq!['"'] + esc(e.0) + seq!['"']);
    assert(!is_ws(r[0]));
    assert(trim_ws(r0) == trim_ws(r));
    assert(trim_ws(r) == r);
    assert(r[0] == '"');
    assert(r.skip(1) =~= esc(e.0) + seq!['"'] + Seq::<char>::empty());
    lemma_scan_esc(e.0, Seq::<char>::empty());
    assert(scan_quoted(r.skip(1)) == Some((e.0, (esc(e.0).len() + 1) as int)));
    assert(r.skip((1 + (esc(e.0).len() + 1)) as int) =~= Seq::<char>::empty());
    assert(crate::chars::all_ws(r.skip((1 + (esc(e.0).len() + 1)) as int)));
    assert(read_quoted(r) == QuotedRes::Good(e.0));
    assert(kw_msgid().len() != kw_msgstr().len());
}

/// A printed `msgstr` line classifies as exactly its `msgstr` token,
/// with the empty content standing for an untranslated entry.
proof fn lemma_classify_str_line(e: EntryV)
    ensures
        classify(str_line(e)) == LineTok::MsgstrTok(
            match e.1 {
                Some(s) => s,
                None => Seq::<char>::empty(),
            },
        ),
{
    let m = match e.1 {
        Some(s) => s,
        None => Seq::<char>::empty(),
    };
    assert(esc(m) == (match e.1 {
        Some(s) => esc(s),
        None => Seq::<char>::empty(),
    }));
    let t = str_line(e);
    assert(t =~= kw_msgstr() + seq![' ', '"'] + esc(m) + seq!['"']);
    assert(t[0] == 'm' && t[1] == 's' && t[2] == 'g' && t[3] == 's' && t[4] == 't' && t[5] == 'r');
    assert(!is_ws('m'));
    assert(trim_ws(t) == t);
    assert(t.len() >= 8);
    assert(t.take(6) =~= kw_msgstr());
    assert(crate::parser::starts_with(t, kw_msgstr()));
    let r0 = t.skip(6);
    assert(r0 =~= seq![' ', '"'] + esc(m) + seq!['"']);
    assert(is_ws(r0[0]));
    let r = r0.drop_first();
    assert(r =~= seq!['"'] + esc(m) + seq!['"']);
    assert(!is_ws(r[0]));
    assert(trim_ws(r0) == trim_ws(r));
    assert(trim_ws(r) == r);
    assert(r[0] == '"');
    assert(r.skip(1) =~= esc(m) + seq!['"'] + Seq::<char>::empty());
    lemma_scan_esc(m, Seq::<char>::empty());
    assert(scan_quoted(r.skip(1)) == Some((m, (esc(m).len() + 1) as int)));
    assert(r.skip((1 + (esc(m).len() + 1)) as int) =~= Seq::<char>::empty());
    assert(crate::chars::all_ws(r.skip((1 + (esc(m).len() + 1)) as int)));
    assert(read_quoted(r) == QuotedRes::Good(m));
}

/// Splitting `line + '\n' + rest` cuts off exactly `line` when the
/// line holds no newline of its own.
proof fn lemma_split_cons(line: Seq<char>, rest: Seq<char>)
    requires
        forall|i: int| 0 <= i < line.len() ==> line[i] != '\n',
    ensures
        split_lines(line + seq!['\n'] + rest) == seq![line] + split_lines(rest),
    decreases line.len(),
{
    let w = line + seq!['\n'] + rest;
    if line.len() == 0 {
        assert(w =~= seq!['\n'] + rest);
        assert(w[0] == '\n');
        assert(w.drop_first() =~= rest);
        assert(seq![line] =~~= seq![Seq::<char>::empty()]);
        assert(split_lines(w) == seq![Seq::<char>::empty()] + split_lines(rest));
    } else {
        assert(w[0] == line[0]);
        assert(w[0] != '\n');
        let l2 = line.drop_first();
        lemma_split_cons(l2, rest);
        assert(w.drop_first() =~= l2 + seq!['\n'] + rest);
        let r = split_lines(w.drop_first());
        assert(r == seq![l2] + split_lines(rest));
        assert(r[0] == l2);
        assert(seq![w[0]] + l2 =~= line);
        assert(r.drop_first() =~= split_lines(rest));
        assert(split_lines(w) =~= seq![line] + split_lines(rest));
    }
}

proof fn lemma_line_no_nl(e: EntryV)
    ensures
        forall|i: int| 0 <= i < id_line(e).len() ==> id_line(e)[i] != '\n',
        forall|i: int| 0 <= i < str_line(e).len() ==> str_line(e)[i] != '\n',
{
    lemma_esc_no_nl(e.0);
    let m = match e.1 {
        Some(s) => s,
        None => Seq::<char>::empty(),
    };
    lemma_esc_no_nl(m);
    assert(id_line(e) =~= kw_msgid() + seq![' ', '"'] + esc(e.0) + seq!['"']);
    assert forall|i: int| 0 <= i < id_line(e).len() implies id_line(e)[i] != '\n' by {
        if i < 7 {
        } else if i < 7 + esc(e.0).len() {
            assert(id_line(e)[i] == esc(e.0)[i - 7]);
        } else {
            assert(id_line(e)[i] == '"');
        }
    }
    assert(str_line(e) =~= kw_msgstr() + seq![' ', '"'] + esc(m) + seq!['"']);
    assert forall|i: int| 0 <= i < str_line(e).len() implies str_line(e)[i] != '\n' by {
        if i < 8 {
        } else if i < 8 + esc(m).len() {
            assert(str_line(e)[i] == esc(m)[i - 8]);
        } else {
            assert(str_line(e)[i] == '"');
        }
    }
}

/// The printed catalog splits into exactly the printed lines, with
/// one trailing empty line.
proof fn lemma_split_ser(es: Seq<EntryV>, k: int)
    requires
        0 <= k <= es.len(),
    ensures
        split_lines(ser_entries(es, k)) == lines_of(es, k) + seq![Seq::<char>::empty()],
    decreases es.len() - k,
{
    if k == es.len() {
        assert(ser_entries(es, k) == Seq::<char>::empty());
        assert(split_lines(Seq::<char>::empty()) =~= seq![Seq::<char>::empty()]);
        assert(lines_of(es, k) + seq![Seq::<char>::empty()] =~= seq![Seq::<char>::empty()]);
    } else {
        lemma_split_ser(es, k + 1);
        lemma_line_no_nl(es[k]);
        let e = es[k];
        let tail1 = str_line(e) + seq!['\n'] + ser_entries(es, k + 1);
        assert(ser_entries(es, k) =~= id_line(e) + seq!['\n'] + tail1);
        lemma_split_cons(id_line(e), tail1);
        lemma_split_cons(str_line(e), ser_entries(es, k + 1));
        assert(split_lines(ser_entries(es, k)) == seq![id_line(e)] + (seq![str_line(e)]
            + split_lines(ser_entries(es, k + 1))));
        assert(seq![id_line(e)] + (seq![str_line(e)] + (lines_of(es, k + 1) + seq![
            Seq::<char>::empty(),
        ])) =~= lines_of(es, k) + seq![Seq::<char>::empty()]);
    }
}

/// Running the state machine over the printed lines accepts them and
/// yields exactly the printed raw entries, whether it starts idle or
/// with one finished entry still pending.
proof fn lemma_run_ser(
    lines: Seq<Seq<char>>,
    i: int,
    es: Seq<EntryV>,
    k: int,
    acc: Seq<RawEntry>,
    id: Seq<char>,
    s: Seq<char>,
)
    requires
        0 <= i <= lines.len(),
        0 <= k <= es.len(),
        lines.skip(i) == lines_of(es, k) + seq![Seq::<char>::empty()],
    ensures
        run(lines, i, PState::Idle, acc) == Ok::<Seq<RawEntry>, ParseError>(
            acc + raw_of(es).skip(k),
        ),
        run(lines, i, PState::GotStr(id, s), acc) == Ok::<Seq<RawEntry>, ParseError>(
            acc.push((id, s)) + raw_of(es).skip(k),
        ),
    decreases es.len() - k,
{
    lemma_lines_of_len(es, k);
    assert(lines.skip(i).len() == lines.len() - i);
    if k == es.len() {
        assert(lines.len() - i == 1);
        assert(lines[i] == lines.skip(i)[0]);
        assert(lines[i] =~= Seq::<char>::empty());
        assert(trim_ws(Seq::<char>::empty()) == Seq::<char>::empty());
        assert(classify(lines[i]) == LineTok::Blank);
        assert(raw_of(es).skip(k) =~= Seq::<RawEntry>::empty());
        assert(acc + raw_of(es).skip(k) =~= acc);
        assert(acc.push((id, s)) + raw_of(es).skip(k) =~= acc.push((id, s)));
        assert(run(lines, i, PState::Idle, acc) == run(lines, i + 1, PState::Idle, acc));
        assert(run(lines, i + 1, PState::Idle, acc) == Ok::<Seq<RawEntry>, ParseError>(acc));
        assert(run(lines, i, PState::GotStr(id, s), acc) == run(
            lines,
            i + 1,
            PState::GotStr(id, s),
            acc,
        ));
        assert(run(lines, i + 1, PState::GotStr(id, s), acc) == Ok::<Seq<RawEntry>, ParseError>(
            acc.push((id, s)),
        ));
    } else {
        let e = es[k];
        let m = match e.1 {
            Some(s0) => s0,
            None => Seq::<char>::empty(),
        };
        assert(lines.len() - i == 2 * (es.len() - k) + 1);
        assert(lines[i] == lines.skip(i)[0]);
        assert(lines[i + 1] == lines.skip(i)[1]);
        assert(lines.skip(i)[0] == id_line(e));
        assert(lines.skip(i)[1] == str_line(e));
        lemma_classify_id_line(e);
        lemma_classify_str_line(e);
        assert(lines.skip(i + 2) =~= lines_of(es, k + 1) + seq![Seq::<char>::empty()]) by {
            assert(forall|j: int|
                0 <= j < lines.len() - i - 2 ==> #[trigger] lines.skip(i + 2)[j] == lines.skip(
                    i,
                )[j + 2]);
            lemma_lines_of_len(es, k + 1);
            assert(forall|j: int|
                2 <= j < lines.len() - i ==> #[trigger] lines.skip(i)[j] == (lines_of(es, k)
                    + seq![Seq::<char>::empty()])[j]);
            assert(forall|j: int|
                0 <= j < lines_of(es, k + 1).len() ==> lines_of(es, k)[j + 2] == #[trigger] lines_of(
                    es,
                    k + 1,
                )[j]);
        }
        lemma_run_ser(lines, i + 2, es, k + 1, acc, e.0, m);
        lemma_run_ser(lines, i + 2, es, k + 1, acc.push((id, s)), e.0, m);
        assert(raw_of(es)[k] == (e.0, m));
        assert(raw_of(es).skip(k) =~= seq![(e.0, m)] + raw_of(es).skip(k + 1));
        // starting idle: msgid line opens the entry, msgstr line fills it
        assert(run(lines, i, PState::Idle, acc) == run(lines, i + 1, PState::GotId(e.0), acc));
        assert(run(lines, i + 1, PState::GotId(e.0), acc) == run(
            lines,
            i + 2,
            PState::GotStr(e.0, m),
            acc,
        ));
        assert(acc.push((e.0, m)) + raw_of(es).skip(k + 1) =~= acc + raw_of(es).skip(k));
        // starting with a pending entry: the msgid line first commits it
        assert(run(lines, i, PState::GotStr(id, s), acc) == run(
            lines,
            i + 1,
            PState::GotId(e.0),
            acc.push((id, s)),
        ));
        assert(run(lines, i + 1, PState::GotId(e.0), acc.push((id, s))) == run(
            lines,
            i + 2,
            PState::GotStr(e.0, m),
            acc.push((id, s)),
        ));
        assert(acc.push((id, s)).push((e.0, m)) + raw_of(es).skip(k + 1) =~= acc.push((id, s))
            + raw_of(es).skip(k));
    }
}

/// Deduplication is the identity on well-formed printed entries.
proof fn lemma_dedup_raw_of(es: Seq<EntryV>)
    requires
        wf_entries(es),
    ensures
        dedup(raw_of(es)) == es,
    decreases es.len(),
{
    if es.len() == 0 {
        assert(raw_of(es) =~= Seq::<RawEntry>::empty());
    } else {
        let p = es.drop_last();
        assert(wf_entries(p)) by {
            assert(forall|i: int| 0 <= i < p.len() ==> p[i] == es[i]);
        }
        lemma_dedup_raw_of(p);
        assert(raw_of(es).len() == es.len());
        assert(raw_of(es).drop_last() =~= raw_of(p)) by {
            assert(forall|i: int|
                0 <= i < p.len() ==> raw_of(es)[i] == raw_of(p)[i] && p[i] == es[i]);
        }
        let last = es.last();
        assert(raw_of(es).last() == (
            last.0,
            match last.1 {
                Some(s) => s,
                None => Seq::<char>::empty(),
            },
        ));
        assert(entry_of(raw_of(es).last()) == last) by {
            match last.1 {
                Some(s) => {
                    assert(s.len() > 0);
                },
                None => {},
            }
        }
        lemma_find_key(p, last.0);
        if find_key(p, last.0) >= 0 {
            let j = find_key(p, last.0);
            assert(p[j] == es[j]);
            assert(es[j].0 == es[es.len() - 1].0);
            assert(false);
        }
        assert(dedup(raw_of(es)) == p.push(last));
        assert(p.push(last) =~= es);
    }
}

/// The round trip: well-formed entries written back as catalog text
/// parse to exactly themselves.
pub proof fn lemma_roundtrip(es: Seq<EntryV>)
    requires
        wf_entries(es),
    ensures
        parse_spec(ser_entries(es, 0)) == Ok::<Seq<EntryV>, ParseError>(es),
{
    lemma_split_ser(es, 0);
    let lines = split_lines(ser_entries(es, 0));
    assert(lines.skip(0) =~= lines);
    lemma_run_ser(lines, 0, es, 0, Seq::empty(), Seq::empty(), Seq::empty());
    assert(raw_of(es).skip(0) =~= raw_of(es));
    assert(Seq::<RawEntry>::empty() + raw_of(es) =~= raw_of(es));
    lemma_dedup_raw_of(es);
}

} // verus!
