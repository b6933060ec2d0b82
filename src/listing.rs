//! Listing the current codes of a store, and writing them out as a table or
//! as JSON.

use vstd::prelude::*;
use crate::codec::{decimal, push_all, push_decimal, push_quoted, quoted};
use crate::crypto::{decrypt, opened_of};
use crate::error::VaultError;
use crate::otp::{accepts_seed, generate_otp, remaining_secs, STEP_SECS};
use crate::record::{views, Record, RecordView};
use crate::store::{parse_store, records_of};
use crate::text::{chars_of, contains_seq, contains_str, lower_of, string_of, to_lower};
use crate::vault::code_at;

verus! {

/// How the listing is written out.
#[derive(Debug, Clone, Copy, PartialEq, Eq, Structural)]
pub enum OutputFormat {
    Table,
    Json,
}

/// What stands in the code column of one record.
pub enum OtpCell {
    /// The current code.
    Code(String),
    /// The seed is not valid Base32.
    InvalidSecret,
    /// The password does not open the envelope.
    DecryptionFailed,
    /// The secret is sealed and no password was given.
    Locked,
}

pub enum CellView {
    Code(Seq<char>),
    InvalidSecret,
    DecryptionFailed,
    Locked,
}

impl View for OtpCell {
    type V = CellView;

    open spec fn view(&self) -> CellView {
        match self {
            OtpCell::Code(c) => CellView::Code(c@),
            OtpCell::InvalidSecret => CellView::InvalidSecret,
            OtpCell::DecryptionFailed => CellView::DecryptionFailed,
            OtpCell::Locked => CellView::Locked,
        }
    }
}

/// One row of a listing.
pub struct Listing {
    pub alias: String,
    pub otp: OtpCell,
    pub remaining_secs: u64,
    pub is_encrypted: bool,
    pub created_at: u64,
}

pub struct ListingView {
    pub alias: Seq<char>,
    pub otp: CellView,
    pub remaining_secs: u64,
    pub is_encrypted: bool,
    pub created_at: u64,
}

impl View for Listing {
    type V = ListingView;

    open spec fn view(&self) -> ListingView {
        ListingView {
            alias: self.alias@,
            otp: self.otp@,
            remaining_secs: self.remaining_secs,
            is_encrypted: self.is_encrypted,
            created_at: self.created_at,
        }
    }
}

/// The characters of an optional string.
pub open spec fn opt_text(o: Option<&str>) -> Option<Seq<char>> {
    match o {
        Some(s) => Some(s@),
        None => None,
    }
}

/// Whether the alias of `r` holds `filter`, ignoring case.
pub open spec fn matches_filter(r: RecordView, filter: Seq<char>) -> bool {
    contains_seq(lower_of(r.alias), lower_of(filter))
}

/// The records that a listing shows, in store order.
pub open spec fn selected(rs: Seq<RecordView>, filter: Option<Seq<char>>) -> Seq<RecordView>
    decreases rs.len(),
{
    match filter {
        None => rs,
        Some(f) => if rs.len() == 0 {
            Seq::empty()
        } else if matches_filter(rs.last(), f) {
            selected(rs.drop_last(), filter).push(rs.last())
        } else {
            selected(rs.drop_last(), filter)
        },
    }
}

/// The cell of a seed at `now`.
pub open spec fn seed_cell(seed: Seq<char>, now: u64) -> CellView {
    if accepts_seed(seed) {
        CellView::Code(code_at(seed, now))
    } else {
        CellView::InvalidSecret
    }
}

/// The cell of a record at `now`, with the password if one was given.
pub open spec fn cell_of(r: RecordView, password: Option<Seq<char>>, now: u64) -> CellView {
    if r.is_unencrypted {
        seed_cell(r.secret, now)
    } else {
        match password {
            None => CellView::Locked,
            Some(p) => match opened_of(p, r.secret) {
                Some(seed) => seed_cell(seed, now),
                None => CellView::DecryptionFailed,
            },
        }
    }
}

/// The row of a record at `now`.
pub open spec fn listing_of(r: RecordView, password: Option<Seq<char>>, now: u64) -> ListingView {
    ListingView {
        alias: r.alias,
        otp: cell_of(r, password, now),
        remaining_secs: (STEP_SECS - now % STEP_SECS) as u64,
        is_encrypted: !r.is_unencrypted,
        created_at: r.created_at,
    }
}

/// Whether a listing with `filter` refuses: a filter that matches nothing.
pub open spec fn ls_refuses(text: Seq<char>, filter: Option<Seq<char>>) -> bool {
    filter is Some && selected(records_of(text), filter).len() == 0
}

/// The records of `records` that a listing with `filter` shows.
fn select(records: &[Record], filter: Option<&str>) -> (r: Vec<Record>)
    ensures
        views(r@) == selected(views(records@), opt_text(filter)),
{
    let needle = match filter {
        Some(f) => Some(to_lower(f)),
        None => None,
    };
    let mut out: Vec<Record> = Vec::new();
    let mut i: usize = 0;
    while i < records.len()
        invariant
            i <= records@.len(),
            match needle {
                Some(n) => filter matches Some(f) && n@ == lower_of(f@),
                None => filter is None,
            },
            views(out@) == selected(views(records@.subrange(0, i as int)), opt_text(filter)),
        decreases records.len() - i,
    {
        proof {
            assert(views(records@.subrange(0, i + 1)).drop_last() =~= views(
                records@.subrange(0, i as int),
            ));
            assert(views(records@.subrange(0, i + 1)).last() == records@[i as int]@);
        }
        let keep = match &needle {
            Some(n) => {
                let alias = to_lower(records[i].alias.as_str());
                contains_str(alias.as_str(), n.as_str())
            },
            None => true,
        };
        if keep {
            let ghost before = views(out@);
            out.push(records[i].duplicate());
            assert(views(out@) =~= before.push(records@[i as int]@));
        }
        proof {
            if filter is None {
                assert(views(records@.subrange(0, i + 1)) == selected(
                    views(records@.subrange(0, i + 1)),
                    opt_text(filter),
                ));
            }
        }
        i = i + 1;
    }
    assert(records@.subrange(0, records@.len() as int) =~= records@);
    out
}

/// The cell of a seed at `now`.
fn cell_of_seed(seed: &str, now: u64) -> (r: OtpCell)
    ensures
        r@ == seed_cell(seed@, now),
{
    match generate_otp(seed, now) {
        Ok(c) => OtpCell::Code(c),
        Err(_) => OtpCell::InvalidSecret,
    }
}

/// The row of one record at `now`.
pub fn list_record(r: &Record, password: Option<&str>, now: u64) -> (l: Listing)
    ensures
        l@ == listing_of(r@, opt_text(password), now),
{
    let otp = if r.is_unencrypted {
        cell_of_seed(r.secret.as_str(), now)
    } else {
        match password {
            None => OtpCell::Locked,
            Some(p) => match decrypt(r.secret.as_str(), p) {
                Ok(seed) => cell_of_seed(seed.as_str(), now),
                Err(_) => OtpCell::DecryptionFailed,
            },
        }
    };
    Listing {
        alias: string_of(chars_of(r.alias.as_str()).as_slice()),
        otp,
        remaining_secs: remaining_secs(now),
        is_encrypted: !r.is_unencrypted,
        created_at: r.created_at,
    }
}

/// The rows of the records whose alias holds `filter` (ignoring case), or of
/// all records without a filter, at `now`; sealed secrets are opened with
/// `password` where one is given. A filter that matches nothing is an error;
/// an empty store without a filter is not.
pub fn ls(text: &str, filter: Option<&str>, password: Option<&str>, now: u64) -> (r: Result<
    Vec<Listing>,
    VaultError,
>)
    ensures
        ls_refuses(text@, opt_text(filter)) ==> r is Err && r->Err_0 == VaultError::AliasNotFound,
        !ls_refuses(text@, opt_text(filter)) ==> r is Ok && r->Ok_0@.len() == selected(
            records_of(text@),
            opt_text(filter),
        ).len() && forall|i: int|
            0 <= i < r->Ok_0@.len() ==> #[trigger] r->Ok_0@[i]@ == listing_of(
                selected(records_of(text@), opt_text(filter))[i],
                opt_text(password),
                now,
            ),
{
    let records = parse_store(text);
    let chosen = select(records.as_slice(), filter);
    if filter.is_some() && chosen.len() == 0 {
        return Err(VaultError::AliasNotFound);
    }
    let ghost sel = views(chosen@);
    let mut rows: Vec<Listing> = Vec::new();
    let mut i: usize = 0;
    while i < chosen.len()
        invariant
            i <= chosen@.len(),
            sel == views(chosen@),
            rows@.len() == i,
            forall|k: int|
                0 <= k < i ==> #[trigger] rows@[k]@ == listing_of(sel[k], opt_text(password), now),
        decreases chosen.len() - i,
    {
        let row = list_record(&chosen[i], password, now);
        assert(sel[i as int] == chosen@[i as int]@);
        rows.push(row);
        i = i + 1;
    }
    Ok(rows)
}

/// Whether a listing with `filter` shows a sealed secret, and so asks for a
/// password.
pub fn needs_password(text: &str, filter: Option<&str>) -> (r: bool)
    ensures
        r == exists|i: int|
            0 <= i < selected(records_of(text@), opt_text(filter)).len() && !(#[trigger] selected(
                records_of(text@),
                opt_text(filter),
            )[i]).is_unencrypted,
{
    let records = parse_store(text);
    let chosen = select(records.as_slice(), filter);
    let ghost sel = views(chosen@);
    let mut i: usize = 0;
    while i < chosen.len()
        invariant
            i <= chosen@.len(),
            sel == views(chosen@),
            sel == selected(records_of(text@), opt_text(filter)),
            forall|k: int| 0 <= k < i ==> (#[trigger] sel[k]).is_unencrypted,
        decreases chosen.len() - i,
    {
        assert(sel[i as int] == chosen@[i as int]@);
        if !chosen[i].is_unencrypted {
            assert(!sel[i as int].is_unencrypted);
            return true;
        }
        i = i + 1;
    }
    false
}

/// The text of a cell.
pub open spec fn cell_text(c: CellView) -> Seq<char> {
    match c {
        CellView::Code(code) => code,
        CellView::InvalidSecret => "Error: invalid Base32"@,
        CellView::DecryptionFailed => "Error: cannot decrypt"@,
        CellView::Locked => "Cannot decrypt - provide a password"@,
    }
}

/// The width of a table column.
pub const COLUMN_WIDTH: usize = 15;

/// `s` filled up with spaces to `width` characters.
pub open spec fn padded(s: Seq<char>, width: nat) -> Seq<char> {
    if s.len() >= width {
        s
    } else {
        s + Seq::new((width - s.len()) as nat, |k: int| ' ')
    }
}

/// One line of the table.
pub open spec fn table_line(left: Seq<char>, right: Seq<char>) -> Seq<char> {
    padded(left, COLUMN_WIDTH as nat) + " | "@ + padded(right, COLUMN_WIDTH as nat) + seq!['\n']
}

/// The table lines of `rows`.
pub open spec fn table_rows(rows: Seq<ListingView>) -> Seq<char>
    decreases rows.len(),
{
    if rows.len() == 0 {
        Seq::empty()
    } else {
        table_rows(rows.drop_last()) + table_line(rows.last().alias, cell_text(rows.last().otp))
    }
}

/// The table of `rows`; a single row asked for by alias is its bare code.
pub open spec fn table_text(rows: Seq<ListingView>, by_alias: bool) -> Seq<char> {
    if by_alias && rows.len() == 1 {
        cell_text(rows[0].otp) + seq!['\n']
    } else {
        table_line("Alias"@, "OTP"@) + table_rows(rows)
    }
}

/// The JSON object of one row.
pub open spec fn json_row(l: ListingView) -> Seq<char> {
    "{\"alias\":"@ + quoted(l.alias) + ",\"otp\":"@ + quoted(cell_text(l.otp))
        + ",\"remaining_secs\":"@ + decimal(l.remaining_secs as nat) + ",\"is_encrypted\":"@
        + crate::codec::bool_text(l.is_encrypted) + ",\"created_at\":"@ + decimal(
        l.created_at as nat,
    ) + "}"@
}

/// The JSON objects of `rows`, separated by commas.
pub open spec fn json_items(rows: Seq<ListingView>) -> Seq<char>
    decreases rows.len(),
{
    if rows.len() == 0 {
        Seq::empty()
    } else if rows.len() == 1 {
        json_row(rows[0])
    } else {
        json_items(rows.drop_last()) + seq![','] + json_row(rows.last())
    }
}

/// The JSON array of `rows`.
pub open spec fn json_text(rows: Seq<ListingView>) -> Seq<char> {
    seq!['['] + json_items(rows) + seq![']']
}

/// The values of a sequence of rows.
pub open spec fn row_views(rows: Seq<Listing>) -> Seq<ListingView> {
    rows.map_values(|l: Listing| l@)
}

/// The text of a cell.
pub fn cell_string(c: &OtpCell) -> (r: String)
    ensures
        r@ == cell_text(c@),
{
    match c {
        OtpCell::Code(code) => string_of(chars_of(code.as_str()).as_slice()),
        OtpCell::InvalidSecret => string_of(chars_of("Error: invalid Base32").as_slice()),
        OtpCell::DecryptionFailed => string_of(chars_of("Error: cannot decrypt").as_slice()),
        OtpCell::Locked => string_of(chars_of("Cannot decrypt - provide a password").as_slice()),
    }
}

fn push_padded(out: &mut Vec<char>, s: &str, width: usize)
    ensures
        final(out)@ == old(out)@ + padded(s@, width as nat),
{
    let cs = chars_of(s);
    push_all(out, cs.as_slice());
    if cs.len() < width {
        let ghost mid = out@;
        let mut k: usize = cs.len();
        while k < width
            invariant
                cs.len() <= k <= width,
                out@ == mid + Seq::new((k - cs.len()) as nat, |j: int| ' '),
            decreases width - k,
        {
            out.push(' ');
            k = k + 1;
            assert(out@ =~= mid + Seq::new((k - cs.len()) as nat, |j: int| ' '));
        }
    }
    assert(out@ =~= old(out)@ + padded(s@, width as nat));
}

fn push_table_line(out: &mut Vec<char>, left: &str, right: &str)
    ensures
        final(out)@ == old(out)@ + table_line(left@, right@),
{
    push_padded(out, left, COLUMN_WIDTH);
    push_all(out, chars_of(" | ").as_slice());
    push_padded(out, right, COLUMN_WIDTH);
    out.push('\n');
    assert(out@ =~= old(out)@ + table_line(left@, right@));
}

/// The listing as a table, or as the bare code of its one row when it was
/// asked for by alias.
pub fn render_table(rows: &[Listing], by_alias: bool) -> (r: String)
    ensures
        r@ == table_text(row_views(rows@), by_alias),
{
    let mut out: Vec<char> = Vec::new();
    if by_alias && rows.len() == 1 {
        push_all(&mut out, chars_of(cell_string(&rows[0].otp).as_str()).as_slice());
        out.push('\n');
        assert(row_views(rows@)[0] == rows@[0]@);
        assert(out@ =~= table_text(row_views(rows@), by_alias));
        return string_of(out.as_slice());
    }
    push_table_line(&mut out, "Alias", "OTP");
    let ghost head = out@;
    let mut i: usize = 0;
    while i < rows.len()
        invariant
            i <= rows@.len(),
            out@ == head + table_rows(row_views(rows@.subrange(0, i as int))),
        decreases rows.len() - i,
    {
        proof {
            assert(row_views(rows@.subrange(0, i + 1)).drop_last() =~= row_views(
                rows@.subrange(0, i as int),
            ));
            assert(row_views(rows@.subrange(0, i + 1)).last() == rows@[i as int]@);
        }
        let cell = cell_string(&rows[i].otp);
        push_table_line(&mut out, rows[i].alias.as_str(), cell.as_str());
        i = i + 1;
        assert(out@ =~= head + table_rows(row_views(rows@.subrange(0, i as int))));
    }
    assert(rows@.subrange(0, rows@.len() as int) =~= rows@);
    string_of(out.as_slice())
}

fn push_json_row(out: &mut Vec<char>, l: &Listing)
    ensures
        final(out)@ == old(out)@ + json_row(l@),
{
    push_all(out, chars_of("{\"alias\":").as_slice());
    push_quoted(out, l.alias.as_str());
    push_all(out, chars_of(",\"otp\":").as_slice());
    push_quoted(out, cell_string(&l.otp).as_str());
    push_all(out, chars_of(",\"remaining_secs\":").as_slice());
    push_decimal(out, l.remaining_secs);
    push_all(out, chars_of(",\"is_encrypted\":").as_slice());
    if l.is_encrypted {
        push_all(out, &['t', 'r', 'u', 'e']);
    } else {
        push_all(out, &['f', 'a', 'l', 's', 'e']);
    }
    push_all(out, chars_of(",\"created_at\":").as_slice());
    push_decimal(out, l.created_at);
    push_all(out, chars_of("}").as_slice());
    assert(out@ =~= old(out)@ + json_row(l@));
}

/// The listing as a JSON array of objects with the keys `alias`, `otp`,
/// `remaining_secs`, `is_encrypted` and `created_at`.
pub fn render_json(rows: &[Listing]) -> (r: String)
    ensures
        r@ == json_text(row_views(rows@)),
{
    let mut out: Vec<char> = Vec::new();
    out.push('[');
    let ghost head = out@;
    let mut i: usize = 0;
    while i < rows.len()
        invariant
            i <= rows@.len(),
            head == seq!['['],
            out@ == head + json_items(row_views(rows@.subrange(0, i as int))),
        decreases rows.len() - i,
    {
        proof {
            assert(row_views(rows@.subrange(0, i + 1)).drop_last() =~= row_views(
                rows@.subrange(0, i as int),
            ));
            assert(row_views(rows@.subrange(0, i + 1)).last() == rows@[i as int]@);
            if i == 0 {
                assert(row_views(rows@.subrange(0, 0)) =~= Seq::<ListingView>::empty());
                assert(row_views(rows@.subrange(0, 1))[0] == rows@[0]@);
            }
        }
        if i > 0 {
            out.push(',');
        }
        push_json_row(&mut out, &rows[i]);
        i = i + 1;
        assert(out@ =~= head + json_items(row_views(rows@.subrange(0, i as int))));
    }
    out.push(']');
    assert(rows@.subrange(0, rows@.len() as int) =~= rows@);
    assert(out@ =~= json_text(row_views(rows@)));
    string_of(out.as_slice())
}

/// The listing written out in `format`.
pub fn render_listing(rows: &[Listing], format: OutputFormat, by_alias: bool) -> (r: String)
    ensures
        format == OutputFormat::Table ==> r@ == table_text(row_views(rows@), by_alias),
        format == OutputFormat::Json ==> r@ == json_text(row_views(rows@)),
{
    match format {
        OutputFormat::Table => render_table(rows, by_alias),
        OutputFormat::Json => render_json(rows),
    }
}

/// The width of the progress bar, in characters.
pub const BAR_WIDTH: u64 = 20;

/// `n` copies of `c`.
pub open spec fn repeated(c: char, n: nat) -> Seq<char> {
    Seq::new(n, |k: int| c)
}

/// The progress bar of `rem` seconds left in a step: one `#` per filled
/// twentieth, dots for the rest, and the seconds.
pub open spec fn progress_text(rem: u64) -> Seq<char> {
    let safe: int = if rem < STEP_SECS { rem as int } else { STEP_SECS as int };
    let filled: int = safe * (BAR_WIDTH as int) / (STEP_SECS as int);
    seq!['['] + repeated('#', filled as nat) + repeated('.', (BAR_WIDTH - filled) as nat) + "] "@
        + decimal(safe as nat) + "s remaining"@
}

fn push_repeated(out: &mut Vec<char>, c: char, n: u64)
    ensures
        final(out)@ == old(out)@ + repeated(c, n as nat),
{
    let mut k: u64 = 0;
    while k < n
        invariant
            k <= n,
            out@ == old(out)@ + repeated(c, k as nat),
        decreases n - k,
    {
        out.push(c);
        k = k + 1;
        assert(out@ =~= old(out)@ + repeated(c, k as nat));
    }
}

/// The progress bar shown beside a code with `rem` seconds left.
pub fn progress_bar(rem: u64) -> (r: String)
    ensures
        r@ == progress_text(rem),
{
    let safe = if rem < STEP_SECS { rem } else { STEP_SECS };
    let filled = safe * BAR_WIDTH / STEP_SECS;
    assert(filled <= BAR_WIDTH) by (nonlinear_arith)
        requires
            safe <= 30,
            filled == safe * 20 / 30,
    ;
    let mut out: Vec<char> = Vec::new();
    out.push('[');
    push_repeated(&mut out, '#', filled);
    push_repeated(&mut out, '.', BAR_WIDTH - filled);
    push_all(&mut out, chars_of("] ").as_slice());
    push_decimal(&mut out, safe);
    push_all(&mut out, chars_of("s remaining").as_slice());
    assert(out@ =~= progress_text(rem));
    string_of(out.as_slice())
}

} // verus!
