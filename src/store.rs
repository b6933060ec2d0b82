//! The store: the text of one file, one record per line.

use vstd::prelude::*;
use crate::codec::{
    bool_text, decimal, decode_legacy, decode_structured, encode, encode_record, escape,
    key_algorithm, key_alias, key_created, key_flag, key_secret, law_structured_round_trip,
    lemma_encode_injective, lemma_escape_no_newline, legacy_of, quoted, split_chars, split_seq,
    structured_of,
};
use crate::record::{views, Record, RecordView};
use crate::text::{chars_of, string_of, trim, trim_seq};

verus! {

/// The lines of a text: cut at each newline, where a final newline ends the
/// last line rather than starting another.
pub open spec fn lines_of(text: Seq<char>) -> Seq<Seq<char>> {
    if text.len() == 0 {
        Seq::empty()
    } else if text.last() == '\n' {
        split_seq(text.drop_last(), '\n')
    } else {
        split_seq(text, '\n')
    }
}

/// How one line of the store reads.
pub enum LineForm {
    /// Nothing but white space.
    Blank,
    Structured(Record),
    Legacy(Record),
    /// Neither form: the line is passed over.
    Unparseable,
}

/// Whether a line is meant as a JSON object: it opens with a brace.
pub open spec fn is_object_line(t: Seq<char>) -> bool {
    t.len() > 0 && t[0] == '{'
}

/// The record that a line holds: the structured form is tried first, then
/// the legacy one, on the line without surrounding white space. A line that
/// opens with a brace but is not a structured record holds none: it is not
/// split as a legacy line.
pub open spec fn record_of_line(line: Seq<char>) -> Option<RecordView> {
    let t = trim_seq(line);
    match structured_of(t) {
        Some(r) => Some(r),
        None => if is_object_line(t) {
            None
        } else {
            legacy_of(t)
        },
    }
}

/// The records of a sequence of lines, in order.
pub open spec fn records_of_lines(lines: Seq<Seq<char>>) -> Seq<RecordView>
    decreases lines.len(),
{
    if lines.len() == 0 {
        Seq::empty()
    } else {
        let p = records_of_lines(lines.drop_last());
        match record_of_line(lines.last()) {
            Some(r) => p.push(r),
            None => p,
        }
    }
}

/// The records of a store's text.
pub open spec fn records_of(text: Seq<char>) -> Seq<RecordView> {
    records_of_lines(lines_of(text))
}

/// The text of a store holding `rs`: one structured line each.
pub open spec fn render(rs: Seq<RecordView>) -> Seq<char>
    decreases rs.len(),
{
    if rs.len() == 0 {
        Seq::empty()
    } else {
        render(rs.drop_last()) + encode(rs.last()) + seq!['\n']
    }
}

/// Reads one line of the store.
pub fn decode_line(line: &str) -> (r: LineForm)
    ensures
        match r {
            LineForm::Blank => trim_seq(line@).len() == 0,
            LineForm::Structured(rec) => trim_seq(line@).len() > 0 && structured_of(
                trim_seq(line@),
            ) == Some(rec@),
            LineForm::Legacy(rec) => trim_seq(line@).len() > 0 && !is_object_line(trim_seq(line@))
                && structured_of(trim_seq(line@)) is None && legacy_of(trim_seq(line@)) == Some(
                rec@,
            ),
            LineForm::Unparseable => trim_seq(line@).len() > 0 && record_of_line(line@) is None,
        },
{
    let t = chars_of(trim(line));
    if t.len() == 0 {
        return LineForm::Blank;
    }
    match decode_structured(t.as_slice()) {
        Some(rec) => LineForm::Structured(rec),
        None => if t[0] == '{' {
            LineForm::Unparseable
        } else {
            match decode_legacy(t.as_slice()) {
                Some(rec) => LineForm::Legacy(rec),
                None => LineForm::Unparseable,
            }
        },
    }
}

/// The record of one line, if it holds one.
pub fn parse_line(line: &str) -> (r: Option<Record>)
    ensures
        match r {
            Some(rec) => record_of_line(line@) == Some(rec@),
            None => record_of_line(line@) is None,
        },
{
    match decode_line(line) {
        LineForm::Structured(rec) => Some(rec),
        LineForm::Legacy(rec) => Some(rec),
        LineForm::Blank => {
            proof {
                let t = trim_seq(line@);
                assert(split_seq(t, ':') =~= seq![Seq::<char>::empty()]) by {
                    assert(t =~= Seq::<char>::empty());
                }
                if structured_of(t) is Some {
                    let rv = choose|rv: RecordView| encode(rv) == t;
                    assert(encode(rv).len() > 0);
                }
            }
            None
        },
        LineForm::Unparseable => None,
    }
}

/// The lines of `text`.
pub fn split_lines(text: &[char]) -> (r: Vec<Vec<char>>)
    ensures
        r@.len() == lines_of(text@).len(),
        forall|k: int| 0 <= k < r@.len() ==> #[trigger] r@[k]@ == lines_of(text@)[k],
{
    if text.len() == 0 {
        return Vec::new();
    }
    if text[text.len() - 1] == '\n' {
        let body = text.split_at(text.len() - 1).0;
        assert(body@ =~= text@.drop_last());
        split_chars(body, '\n')
    } else {
        split_chars(text, '\n')
    }
}

/// The records of a store's text, in the order of its lines.
pub fn parse_store(text: &str) -> (r: Vec<Record>)
    ensures
        views(r@) == records_of(text@),
{
    let cs = chars_of(text);
    let lines = split_lines(cs.as_slice());
    let ghost ls = lines_of(text@);
    let mut out: Vec<Record> = Vec::new();
    let mut i: usize = 0;
    while i < lines.len()
        invariant
            i <= lines@.len(),
            lines@.len() == ls.len(),
            forall|k: int| 0 <= k < lines@.len() ==> #[trigger] lines@[k]@ == ls[k],
            views(out@) == records_of_lines(ls.subrange(0, i as int)),
        decreases lines.len() - i,
    {
        let line = string_of(lines[i].as_slice());
        let parsed = parse_line(line.as_str());
        proof {
            assert(ls.subrange(0, i + 1).drop_last() =~= ls.subrange(0, i as int));
            assert(ls.subrange(0, i + 1).last() == lines@[i as int]@);
        }
        match parsed {
            Some(rec) => {
                out.push(rec);
                assert(views(out@) =~= records_of_lines(ls.subrange(0, i + 1)));
            },
            None => {},
        }
        i = i + 1;
    }
    assert(ls.subrange(0, ls.len() as int) =~= ls);
    out
}

/// The text of a store holding `rs`.
pub fn render_store(rs: &[Record]) -> (r: String)
    ensures
        r@ == render(views(rs@)),
{
    let mut out: Vec<char> = Vec::new();
    let mut i: usize = 0;
    while i < rs.len()
        invariant
            i <= rs@.len(),
            out@ == render(views(rs@.subrange(0, i as int))),
        decreases rs.len() - i,
    {
        let line = chars_of(encode_record(&rs[i]).as_str());
        proof {
            assert(views(rs@.subrange(0, i + 1)).drop_last() =~= views(rs@.subrange(0, i as int)));
        }
        let mut k: usize = 0;
        let ghost before = out@;
        while k < line.len()
            invariant
                k <= line@.len(),
                out@ == before + line@.subrange(0, k as int),
            decreases line.len() - k,
        {
            out.push(line[k]);
            k = k + 1;
            assert(out@ =~= before + line@.subrange(0, k as int));
        }
        out.push('\n');
        i = i + 1;
        assert(line@.subrange(0, line@.len() as int) =~= line@);
        assert(out@ =~= render(views(rs@.subrange(0, i as int))));
    }
    assert(rs@.subrange(0, rs@.len() as int) =~= rs@);
    string_of(out.as_slice())
}

/// The structured lines of `rs`.
pub open spec fn encoded_lines(rs: Seq<RecordView>) -> Seq<Seq<char>> {
    rs.map_values(|r: RecordView| encode(r))
}

/// No character of `s` is a newline.
pub open spec fn no_newline(s: Seq<char>) -> bool {
    forall|k: int| 0 <= k < s.len() ==> s[k] != '\n'
}

proof fn lemma_no_newline_concat(a: Seq<char>, b: Seq<char>)
    requires
        no_newline(a),
        no_newline(b),
    ensures
        no_newline(a + b),
{
    assert forall|k: int| 0 <= k < (a + b).len() implies (a + b)[k] != '\n' by {
        if k < a.len() {
            assert((a + b)[k] == a[k]);
        } else {
            assert((a + b)[k] == b[k - a.len()]);
        }
    }
}

proof fn lemma_decimal_no_newline(n: nat)
    ensures
        no_newline(decimal(n)),
    decreases n,
{
    if n >= 10 {
        lemma_decimal_no_newline(n / 10);
        lemma_no_newline_concat(decimal(n / 10), seq![crate::codec::digit_char((n % 10) as int)]);
        assert(decimal(n) =~= decimal(n / 10) + seq![crate::codec::digit_char((n % 10) as int)]);
    }
}

proof fn lemma_quoted_no_newline(s: Seq<char>)
    ensures
        no_newline(quoted(s)),
{
    lemma_escape_no_newline(s);
    assert(no_newline(escape(s))) by {
        assert forall|k: int| 0 <= k < escape(s).len() implies escape(s)[k] != '\n' by {
            if escape(s)[k] == '\n' {
                assert(escape(s).contains('\n'));
            }
        }
    }
    lemma_no_newline_concat(seq!['"'], escape(s));
    lemma_no_newline_concat(seq!['"'] + escape(s), seq!['"']);
}

/// A structured line holds no newline, starts with `{` and ends with `}`.
pub proof fn lemma_encode_shape(r: RecordView)
    ensures
        no_newline(encode(r)),
        encode(r)[0] == '{',
        encode(r).last() == '}',
        trim_seq(encode(r)) == encode(r),
{
    lemma_quoted_no_newline(r.alias);
    lemma_quoted_no_newline(r.secret);
    lemma_quoted_no_newline(r.algorithm);
    lemma_decimal_no_newline(r.created_at as nat);
    let a = key_alias() + quoted(r.alias);
    let b = key_secret() + quoted(r.secret);
    let c = key_flag() + bool_text(r.is_unencrypted);
    let d = key_algorithm() + quoted(r.algorithm);
    let e = key_created() + decimal(r.created_at as nat) + seq!['}'];
    lemma_no_newline_concat(key_alias(), quoted(r.alias));
    lemma_no_newline_concat(key_secret(), quoted(r.secret));
    lemma_no_newline_concat(key_flag(), bool_text(r.is_unencrypted));
    lemma_no_newline_concat(key_algorithm(), quoted(r.algorithm));
    lemma_no_newline_concat(key_created(), decimal(r.created_at as nat));
    lemma_no_newline_concat(key_created() + decimal(r.created_at as nat), seq!['}']);
    lemma_no_newline_concat(a, b);
    lemma_no_newline_concat(a + b, c);
    lemma_no_newline_concat(a + b + c, d);
    lemma_no_newline_concat(a + b + c + d, e);
    assert(encode(r) =~= a + b + c + d + e);
    let t = encode(r);
    assert(t[0] == '{');
    assert(t.last() == '}');
    assert(crate::text::trim_start_seq(t) == t);
    assert(crate::text::trim_end_seq(t) == t);
}

proof fn lemma_split_plain(s: Seq<char>, y: Seq<char>, sep: char)
    requires
        forall|k: int| 0 <= k < y.len() ==> y[k] != sep,
    ensures
        split_seq(s + y, sep) == split_seq(s, sep).update(
            split_seq(s, sep).len() - 1,
            split_seq(s, sep).last() + y,
        ),
    decreases y.len(),
{
    crate::codec::lemma_split_nonempty(s, sep);
    if y.len() == 0 {
        assert(s + y =~= s);
        assert(split_seq(s, sep).last() + y =~= split_seq(s, sep).last());
        assert(split_seq(s, sep).update(split_seq(s, sep).len() - 1, split_seq(s, sep).last())
            =~= split_seq(s, sep));
    } else {
        let y2 = y.drop_last();
        lemma_split_plain(s, y2, sep);
        assert((s + y).drop_last() =~= s + y2);
        assert((s + y).last() == y.last());
        assert(y.last() == y[y.len() - 1]);
        assert(y.last() != sep);
        let p = split_seq(s, sep);
        let grown = split_seq(s + y2, sep);
        assert(grown == p.update(p.len() - 1, p.last() + y2));
        assert(grown.len() == p.len());
        assert(grown.last() == p.last() + y2);
        assert(split_seq(s + y, sep) == grown.update(grown.len() - 1, grown.last().push(y.last())));
        assert((p.last() + y2).push(y.last()) =~= p.last() + y);
        assert(split_seq(s + y, sep) =~= p.update(p.len() - 1, p.last() + y));
    }
}

proof fn lemma_split_sep(s: Seq<char>, sep: char)
    ensures
        split_seq(s.push(sep), sep) == split_seq(s, sep).push(Seq::empty()),
{
    assert(s.push(sep).drop_last() =~= s);
}

proof fn lemma_split_rendered(p: Seq<RecordView>)
    requires
        p.len() > 0,
        lines_of(render(p)) == encoded_lines(p),
    ensures
        split_seq(render(p), '\n') == encoded_lines(p).push(Seq::empty()),
{
    let q = render(p.drop_last()) + encode(p.last());
    assert(render(p) =~= q.push('\n'));
    assert(render(p).drop_last() =~= q);
    lemma_split_sep(q, '\n');
}

/// The lines of the text that `render` makes are the structured lines of
/// the records.
#[verifier::rlimit(60)]
proof fn lemma_lines_of_render(rs: Seq<RecordView>)
    ensures
        lines_of(render(rs)) == encoded_lines(rs),
    decreases rs.len(),
{
    if rs.len() > 0 {
        let p = rs.drop_last();
        let e = encode(rs.last());
        lemma_encode_shape(rs.last());
        lemma_lines_of_render(p);
        let t = render(rs);
        assert(t.last() == '\n');
        assert(t.drop_last() =~= render(p) + e);
        let sp = split_seq(render(p), '\n');
        lemma_split_plain(render(p), e, '\n');
        assert(lines_of(t) == sp.update(sp.len() - 1, sp.last() + e));
        if p.len() == 0 {
            assert(render(p) =~= Seq::<char>::empty());
            assert(sp =~= seq![Seq::<char>::empty()]);
            assert(Seq::<char>::empty() + e =~= e);
            assert(lines_of(t) =~= encoded_lines(rs));
        } else {
            lemma_split_rendered(p);
            assert(Seq::<char>::empty() + e =~= e);
            assert(lines_of(t) =~= encoded_lines(p).push(e));
            assert(encoded_lines(rs) =~= encoded_lines(p).push(e));
        }
    } else {
        assert(lines_of(render(rs)) =~= encoded_lines(rs));
    }
}

/// Reading the structured lines of `rs` gives records with the same lines.
proof fn lemma_records_of_encoded(rs: Seq<RecordView>)
    ensures
        records_of_lines(encoded_lines(rs)).len() == rs.len(),
        forall|i: int|
            0 <= i < rs.len() ==> encode(
                #[trigger] records_of_lines(encoded_lines(rs))[i],
            ) == encode(rs[i]),
    decreases rs.len(),
{
    if rs.len() > 0 {
        let p = rs.drop_last();
        let ls = encoded_lines(rs);
        assert(ls.drop_last() =~= encoded_lines(p));
        lemma_records_of_encoded(p);
        let e = encode(rs.last());
        lemma_encode_shape(rs.last());
        assert(ls.last() == e);
        assert(structured_of(e) is Some);
        let x = structured_of(e)->Some_0;
        assert(encode(x) == e);
        assert(record_of_line(e) == Some(x));
    }
}

proof fn lemma_render_same_lines(a: Seq<RecordView>, b: Seq<RecordView>)
    requires
        a.len() == b.len(),
        forall|i: int| 0 <= i < a.len() ==> encode(#[trigger] a[i]) == encode(b[i]),
    ensures
        render(a) == render(b),
    decreases a.len(),
{
    if a.len() > 0 {
        lemma_render_same_lines(a.drop_last(), b.drop_last());
        assert(encode(a[a.len() - 1]) == encode(b[b.len() - 1]));
    }
}

/// Migrating a store twice writes the same text as migrating it once.
pub proof fn law_migrate_idempotent(text: Seq<char>)
    ensures
        render(records_of(render(records_of(text)))) == render(records_of(text)),
{
    let rs = records_of(text);
    lemma_lines_of_render(rs);
    lemma_records_of_encoded(rs);
    lemma_render_same_lines(records_of(render(rs)), rs);
}

/// The record of a structured line is the record it was written from.
pub proof fn lemma_record_of_encoded_line(r: RecordView)
    ensures
        record_of_line(encode(r)) == Some(r),
{
    lemma_encode_shape(r);
    law_structured_round_trip(r);
}

/// Reading the text that `render` makes gives the same records back.
pub proof fn law_render_round_trip(rs: Seq<RecordView>)
    ensures
        records_of(render(rs)) == rs,
{
    lemma_lines_of_render(rs);
    lemma_records_of_encoded(rs);
    let back = records_of(render(rs));
    assert forall|i: int| 0 <= i < rs.len() implies back[i] == rs[i] by {
        lemma_encode_injective(back[i], rs[i]);
    }
    assert(back =~= rs);
}

/// What appending the line `line` to `text` adds: a newline first where the
/// text does not end with one.
pub open spec fn with_line(text: Seq<char>, line: Seq<char>) -> Seq<char> {
    if text.len() > 0 && text.last() != '\n' {
        text + seq!['\n'] + line + seq!['\n']
    } else {
        text + line + seq!['\n']
    }
}

/// Appending a line without newlines adds it as the text's last line.
pub proof fn lemma_lines_with_line(text: Seq<char>, line: Seq<char>)
    requires
        no_newline(line),
    ensures
        lines_of(with_line(text, line)) == lines_of(text).push(line),
{
    let t = with_line(text, line);
    assert(t.last() == '\n');
    lemma_split_plain(Seq::empty(), line, '\n');
    assert(Seq::<char>::empty() + line =~= line);
    assert(split_seq(Seq::<char>::empty(), '\n') =~= seq![Seq::<char>::empty()]);
    if text.len() == 0 {
        assert(t.drop_last() =~= Seq::<char>::empty() + line);
        assert(lines_of(t) =~= lines_of(text).push(line));
    } else if text.last() != '\n' {
        assert(t.drop_last() =~= text.push('\n') + line);
        lemma_split_plain(text.push('\n'), line, '\n');
        lemma_split_sep(text, '\n');
        assert(lines_of(t) =~= lines_of(text).push(line));
    } else {
        let body = text.drop_last();
        assert(text =~= body.push('\n'));
        assert(t.drop_last() =~= body.push('\n') + line);
        lemma_split_plain(body.push('\n'), line, '\n');
        lemma_split_sep(body, '\n');
        assert(lines_of(t) =~= lines_of(text).push(line));
    }
}

/// Appending the structured line of `r` to a store adds `r` as its last
/// record and keeps the others.
pub proof fn law_append_record(text: Seq<char>, r: RecordView)
    ensures
        records_of(with_line(text, encode(r))) == records_of(text).push(r),
{
    lemma_encode_shape(r);
    lemma_lines_with_line(text, encode(r));
    lemma_record_of_encoded_line(r);
    let ls = lines_of(text).push(encode(r));
    assert(ls.drop_last() =~= lines_of(text));
}

/// After a migration every line of the store is the structured line of the
/// record read from it, so a second migration has nothing to convert.
pub proof fn law_migrated_lines(text: Seq<char>)
    ensures
        ({
            let after = render(records_of(text));
            &&& lines_of(after).len() == records_of(after).len()
            &&& records_of(after) == records_of(text)
            &&& forall|i: int|
                0 <= i < lines_of(after).len() ==> #[trigger] lines_of(after)[i] == encode(
                    records_of(after)[i],
                ) && structured_of(lines_of(after)[i]) == Some(records_of(after)[i])
        }),
{
    let rs = records_of(text);
    lemma_lines_of_render(rs);
    law_render_round_trip(rs);
    assert forall|i: int| 0 <= i < rs.len() implies structured_of(encode(rs[i])) == Some(rs[i]) by {
        law_structured_round_trip(rs[i]);
    }
}

} // verus!
