//! The two line forms of a record.
//!
//! The structured form is a JSON object with the keys `alias`, `secret`,
//! `is_unencrypted`, `algorithm` and `created_at`, in that order and without
//! white space; every record is written in it. The legacy form
//! `alias:secret:flag:algorithm` is still read.

use vstd::prelude::*;
use crate::record::{Record, RecordView, DELIMITER};
use crate::text::{chars_of, occurs_at, string_of};

verus! {

/// The lowercase hexadecimal digit of `d`, for `d` below 16.
pub open spec fn hex_digit(d: int) -> char {
    if d == 0 {
        '0'
    } else if d == 1 {
        '1'
    } else if d == 2 {
        '2'
    } else if d == 3 {
        '3'
    } else if d == 4 {
        '4'
    } else if d == 5 {
        '5'
    } else if d == 6 {
        '6'
    } else if d == 7 {
        '7'
    } else if d == 8 {
        '8'
    } else if d == 9 {
        '9'
    } else if d == 10 {
        'a'
    } else if d == 11 {
        'b'
    } else if d == 12 {
        'c'
    } else if d == 13 {
        'd'
    } else if d == 14 {
        'e'
    } else {
        'f'
    }
}

/// How one character stands inside a JSON string.
pub open spec fn escape_char(c: char) -> Seq<char> {
    if c == '"' {
        seq!['\\', '"']
    } else if c == '\\' {
        seq!['\\', '\\']
    } else if (c as u32) < 32 {
        seq!['\\', 'u', '0', '0', hex_digit(((c as u32) / 16) as int), hex_digit(((c as u32) % 16) as int)]
    } else {
        seq![c]
    }
}

/// How a string stands between the quotes of a JSON string.
pub open spec fn escape(s: Seq<char>) -> Seq<char>
    decreases s.len(),
{
    if s.len() == 0 {
        Seq::empty()
    } else {
        escape_char(s[0]) + escape(s.drop_first())
    }
}

/// A JSON string holding `s`.
pub open spec fn quoted(s: Seq<char>) -> Seq<char> {
    seq!['"'] + escape(s) + seq!['"']
}

pub open spec fn bool_text(b: bool) -> Seq<char> {
    if b {
        seq!['t', 'r', 'u', 'e']
    } else {
        seq!['f', 'a', 'l', 's', 'e']
    }
}

/// The decimal digit of `d`.
pub open spec fn digit_char(d: int) -> char {
    hex_digit(d)
}

/// The decimal digits of `n`, without leading zeros.
pub open spec fn decimal(n: nat) -> Seq<char>
    decreases n,
{
    if n < 10 {
        seq![digit_char(n as int)]
    } else {
        decimal(n / 10).push(digit_char((n % 10) as int))
    }
}

pub open spec fn key_alias() -> Seq<char> {
    seq!['{', '"', 'a', 'l', 'i', 'a', 's', '"', ':']
}

pub open spec fn key_secret() -> Seq<char> {
    seq![',', '"', 's', 'e', 'c', 'r', 'e', 't', '"', ':']
}

pub open spec fn key_flag() -> Seq<char> {
    seq![
        ',', '"', 'i', 's', '_', 'u', 'n', 'e', 'n', 'c', 'r', 'y', 'p', 't', 'e', 'd', '"', ':'
    ]
}

pub open spec fn key_algorithm() -> Seq<char> {
    seq![',', '"', 'a', 'l', 'g', 'o', 'r', 'i', 't', 'h', 'm', '"', ':']
}

pub open spec fn key_created() -> Seq<char> {
    seq![',', '"', 'c', 'r', 'e', 'a', 't', 'e', 'd', '_', 'a', 't', '"', ':']
}

/// The structured line of a record.
pub open spec fn encode(r: RecordView) -> Seq<char> {
    key_alias() + quoted(r.alias) + key_secret() + quoted(r.secret) + key_flag() + bool_text(
        r.is_unencrypted,
    ) + key_algorithm() + quoted(r.algorithm) + key_created() + decimal(r.created_at as nat)
        + seq!['}']
}

proof fn lemma_escape_push(s: Seq<char>, c: char)
    ensures
        escape(s.push(c)) == escape(s) + escape_char(c),
    decreases s.len(),
{
    if s.len() == 0 {
        assert(s.push(c).drop_first() =~= Seq::<char>::empty());
        assert(s.push(c)[0] == c);
        assert(escape(Seq::<char>::empty()) == Seq::<char>::empty());
        assert(escape(s.push(c)) =~= escape(s) + escape_char(c));
    } else {
        assert(s.push(c).drop_first() =~= s.drop_first().push(c));
        lemma_escape_push(s.drop_first(), c);
        assert(escape(s.push(c)) =~= escape(s) + escape_char(c));
    }
}

pub proof fn lemma_escape_no_newline(s: Seq<char>)
    ensures
        !escape(s).contains('\n'),
    decreases s.len(),
{
    if s.len() > 0 {
        lemma_escape_no_newline(s.drop_first());
        let c = s[0];
        assert(!escape_char(c).contains('\n')) by {
            assert(forall|i: int| 0 <= i < escape_char(c).len() ==> escape_char(c)[i] != '\n');
        }
        assert(!(escape_char(c) + escape(s.drop_first())).contains('\n')) by {
            if (escape_char(c) + escape(s.drop_first())).contains('\n') {
                let i = choose|i: int|
                    0 <= i < (escape_char(c) + escape(s.drop_first())).len() && (escape_char(c)
                        + escape(s.drop_first()))[i] == '\n';
                if i < escape_char(c).len() {
                    assert(escape_char(c)[i] == '\n');
                } else {
                    assert(escape(s.drop_first())[i - escape_char(c).len()] == '\n');
                }
            }
        }
    }
}

/// How an escaped string followed by its closing quote begins: either the
/// quote itself, or the escape of its first character.
proof fn lemma_escaped_step(v: Seq<char>, i: int, t: Seq<char>)
    requires
        occurs_at(v, escape(t) + seq!['"'], i),
    ensures
        t.len() == 0 ==> v[i] == '"',
        t.len() > 0 ==> {
            let c = t[0];
            let n = escape_char(c).len() as int;
            &&& v[i] != '"'
            &&& occurs_at(v, escape_char(c), i)
            &&& occurs_at(v, escape(t.drop_first()) + seq!['"'], i + n)
            &&& v[i] != '\\' ==> (v[i] as u32) >= 32 && c == v[i] && n == 1
            &&& v[i] == '\\' ==> i + 1 < v.len() && (v[i + 1] == '"' || v[i + 1] == '\\'
                || v[i + 1] == 'u')
            &&& v[i] == '\\' && v[i + 1] != 'u' ==> c == v[i + 1] && n == 2
            &&& v[i] == '\\' && v[i + 1] == 'u' ==> i + 5 < v.len() && (c as u32) < 32 && c
                != '"' && c != '\\' && n == 6 && v[i + 2] == '0' && v[i + 3] == '0' && v[i + 4]
                == hex_digit(((c as u32) / 16) as int) && v[i + 5] == hex_digit(((c as u32) % 16) as int)
        },
{
    let w = escape(t) + seq!['"'];
    assert(v.subrange(i, i + w.len())[0] == w[0]);
    if t.len() > 0 {
        lemma_char_range(t[0]);
    }
    if t.len() == 0 {
        assert(w[0] == '"');
    } else {
        let c = t[0];
        let e = escape_char(c);
        let rest = escape(t.drop_first()) + seq!['"'];
        assert(w =~= e + rest);
        assert forall|k: int| 0 <= k < e.len() implies v[i + k] == e[k] by {
            assert(v.subrange(i, i + w.len())[k] == w[k]);
        }
        assert(v.subrange(i, i + e.len()) =~= e);
        assert forall|k: int| 0 <= k < rest.len() implies v[i + e.len() + k] == rest[k] by {
            assert(v.subrange(i, i + w.len())[e.len() + k] == w[e.len() + k]);
        }
        assert(v.subrange(i + e.len(), i + e.len() + rest.len()) =~= rest);
    }
}

/// The numeric range of a character.
pub proof fn lemma_char_range(c: char)
    ensures
        0 <= (c as int) < 0x110000,
        ((c as u32) as int) == (c as int),
{
}

proof fn lemma_hex_injective(a: int, b: int)
    requires
        0 <= a < 16,
        0 <= b < 16,
        hex_digit(a) == hex_digit(b),
    ensures
        a == b,
{
}

/// The value of a lowercase hexadecimal digit.
fn hex_value(ch: char) -> (r: Option<u32>)
    ensures
        r matches Some(d) ==> d < 16 && hex_digit(d as int) == ch,
        r is None ==> forall|d: int| 0 <= d < 16 ==> hex_digit(d) != ch,
{
    match ch {
        '0' => Some(0),
        '1' => Some(1),
        '2' => Some(2),
        '3' => Some(3),
        '4' => Some(4),
        '5' => Some(5),
        '6' => Some(6),
        '7' => Some(7),
        '8' => Some(8),
        '9' => Some(9),
        'a' => Some(10),
        'b' => Some(11),
        'c' => Some(12),
        'd' => Some(13),
        'e' => Some(14),
        'f' => Some(15),
        _ => None,
    }
}

/// The JSON string that starts at index `start` of `v`: its text, and the
/// index after its closing quote.
fn scan_quoted(v: &[char], start: usize) -> (res: Option<(Vec<char>, usize)>)
    ensures
        res matches Some((s, end)) ==> occurs_at(v@, quoted(s@), start as int) && end == start
            + quoted(s@).len(),
        forall|q: Seq<char>|
            #[trigger] occurs_at(v@, quoted(q), start as int) ==> (res matches Some((s, _))
                && s@ == q),
{
    if start >= v.len() || v[start] != '"' {
        proof {
            assert forall|q: Seq<char>| !#[trigger] occurs_at(v@, quoted(q), start as int) by {
                if occurs_at(v@, quoted(q), start as int) {
                    assert(v@.subrange(start as int, start + quoted(q).len())[0] == quoted(q)[0]);
                }
            }
        }
        return None;
    }
    let mut out: Vec<char> = Vec::new();
    let mut i: usize = start + 1;
    proof {
        assert(v@.subrange(start + 1, i as int) =~= escape(out@));
        assert forall|q: Seq<char>| #[trigger] occurs_at(v@, quoted(q), start as int) implies q.subrange(
            0,
            0,
        ) == out@ && occurs_at(v@, escape(q.subrange(0, q.len() as int)) + seq!['"'], i as int) by {
            let w = quoted(q);
            let x = escape(q) + seq!['"'];
            assert(w =~= seq!['"'] + x);
            assert(q.subrange(0, q.len() as int) =~= q);
            assert(v@.subrange(i as int, i + x.len()) =~= x) by {
                assert forall|k: int| 0 <= k < x.len() implies v@[i + k] == x[k] by {
                    assert(v@.subrange(start as int, start + w.len())[1 + k] == w[1 + k]);
                }
            }
            assert(q.subrange(0, 0) =~= out@);
        }
    }
    loop
        invariant
            start < i <= v.len(),
            v@[start as int] == '"',
            v@.subrange(start + 1, i as int) == escape(out@),
            forall|q: Seq<char>|
                #[trigger] occurs_at(v@, quoted(q), start as int) ==> out@.len() <= q.len()
                    && q.subrange(0, out@.len() as int) == out@ && occurs_at(
                    v@,
                    escape(q.subrange(out@.len() as int, q.len() as int)) + seq!['"'],
                    i as int,
                ),
        decreases v.len() - i,
    {
        let ghost old_out = out@;
        let ghost old_i = i;
        if i >= v.len() {
            proof {
                assert forall|q: Seq<char>| !#[trigger] occurs_at(v@, quoted(q), start as int) by {
                    if occurs_at(v@, quoted(q), start as int) {
                        let x = escape(q.subrange(out@.len() as int, q.len() as int)) + seq!['"'];
                        assert(x.len() >= 1);
                    }
                }
            }
            return None;
        }
        let c = v[i];
        if c == '"' {
            proof {
                assert(v@.subrange(start as int, i + 1) =~= seq!['"'] + v@.subrange(
                    start + 1,
                    i as int,
                ) + seq!['"']);
                assert forall|q: Seq<char>| #[trigger] occurs_at(v@, quoted(q), start as int) implies q
                    == out@ by {
                    let t = q.subrange(out@.len() as int, q.len() as int);
                    lemma_escaped_step(v@, i as int, t);
                    assert(q =~= q.subrange(0, out@.len() as int) + t);
                }
            }
            return Some((out, i + 1));
        }
        let ghost mut x: char = c;
        let ghost mut n: int = 1;
        if c == '\\' {
            if i + 1 >= v.len() {
                proof {
                    assert forall|q: Seq<char>| !#[trigger] occurs_at(v@, quoted(q), start as int) by {
                        if occurs_at(v@, quoted(q), start as int) {
                            let t = q.subrange(out@.len() as int, q.len() as int);
                            lemma_escaped_step(v@, i as int, t);
                        }
                    }
                }
                return None;
            }
            let e = v[i + 1];
            if e == '"' || e == '\\' {
                assert(v@.subrange(i as int, i + 2) =~= escape_char(e));
                out.push(e);
                i = i + 2;
                proof {
                    x = e;
                    n = 2;
                }
            } else if e == 'u' && v.len() - i > 5 && v[i + 2] == '0' && v[i + 3] == '0' {
                let hi = hex_value(v[i + 4]);
                let lo = hex_value(v[i + 5]);
                match (hi, lo) {
                    (Some(h), Some(l)) if h < 2 => {
                        let code = h * 16 + l;
                        let ch = (code as u8) as char;
                        assert(ch as u32 == h * 16 + l);
                        assert((ch as u32) / 16 == h && (ch as u32) % 16 == l);
                        assert(v@.subrange(i as int, i + 6) =~= escape_char(ch));
                        out.push(ch);
                        i = i + 6;
                        proof {
                            x = ch;
                            n = 6;
                        }
                    },
                    _ => {
                        proof {
                            assert forall|q: Seq<char>| !#[trigger] occurs_at(v@, quoted(q), start as int) by {
                                if occurs_at(v@, quoted(q), start as int) {
                                    let t = q.subrange(out@.len() as int, q.len() as int);
                                    lemma_escaped_step(v@, i as int, t);
                                    assert(v@[i as int] == '\\');
                                    assert(t.len() > 0);
                                    let d = ((t[0] as u32) / 16) as int;
                                    assert(0 <= d < 2);
                                    if let Some(h) = hi {
                                        lemma_hex_injective(h as int, d);
                                    }
                                }
                            }
                        }
                        return None;
                    },
                }
            } else {
                proof {
                    assert forall|q: Seq<char>| !#[trigger] occurs_at(v@, quoted(q), start as int) by {
                        if occurs_at(v@, quoted(q), start as int) {
                            let t = q.subrange(out@.len() as int, q.len() as int);
                            lemma_escaped_step(v@, i as int, t);
                        }
                    }
                }
                return None;
            }
        } else if ' ' > c {
            proof {
                lemma_char_range(c);
                assert((c as u32) < 32);
                assert forall|q: Seq<char>| !#[trigger] occurs_at(v@, quoted(q), start as int) by {
                    if occurs_at(v@, quoted(q), start as int) {
                        let t = q.subrange(old_out.len() as int, q.len() as int);
                        lemma_escaped_step(v@, old_i as int, t);
                    }
                }
            }
            return None;
        } else {
            proof {
                lemma_char_range(c);
            }
            assert(v@.subrange(i as int, i + 1) =~= escape_char(c));
            out.push(c);
            i = i + 1;
        }
        proof {
            assert(out@ == old_out.push(x));
            assert(i == old_i + n);
            assert(v@.subrange(old_i as int, i as int) =~= escape_char(x));
            lemma_escape_push(old_out, x);
            lemma_char_range(x);
            assert(v@.subrange(start + 1, i as int) =~= v@.subrange(start + 1, old_i as int)
                + v@.subrange(old_i as int, i as int));
            assert forall|q: Seq<char>| #[trigger] occurs_at(v@, quoted(q), start as int) implies out@.len()
                <= q.len() && q.subrange(0, out@.len() as int) == out@ && occurs_at(
                v@,
                escape(q.subrange(out@.len() as int, q.len() as int)) + seq!['"'],
                i as int,
            ) by {
                let t = q.subrange(old_out.len() as int, q.len() as int);
                lemma_escaped_step(v@, old_i as int, t);
                lemma_char_range(t[0]);
                lemma_char_range(x);
                assert(t[0] == x);
                assert(q.subrange(0, out@.len() as int) =~= q.subrange(0, old_out.len() as int).push(
                    t[0],
                ));
                assert(t.drop_first() =~= q.subrange(out@.len() as int, q.len() as int));
            }
        }
    }
}

pub open spec fn is_digit(c: char) -> bool {
    '0' <= c && c <= '9'
}

pub open spec fn digit_value(c: char) -> int {
    c as int - 48
}

/// The number that a string of decimal digits denotes.
pub open spec fn decimal_value(d: Seq<char>) -> int
    decreases d.len(),
{
    if d.len() == 0 {
        0
    } else {
        decimal_value(d.drop_last()) * 10 + digit_value(d.last())
    }
}

/// Decimal digits as `decimal` writes them: at least one, and no leading zero.
pub open spec fn is_canonical_decimal(d: Seq<char>) -> bool {
    &&& d.len() > 0
    &&& forall|k: int| 0 <= k < d.len() ==> is_digit(#[trigger] d[k])
    &&& (d.len() == 1 || d[0] != '0')
}

proof fn lemma_digit_char(d: int)
    requires
        0 <= d < 10,
    ensures
        is_digit(digit_char(d)),
        digit_value(digit_char(d)) == d,
{
}

proof fn lemma_decimal_canonical(n: nat)
    ensures
        is_canonical_decimal(decimal(n)),
        decimal_value(decimal(n)) == n,
        n >= 1 ==> decimal(n)[0] != '0',
    decreases n,
{
    if n < 10 {
        lemma_digit_char(n as int);
        assert(decimal(n).drop_last() =~= Seq::<char>::empty());
        assert(decimal(n).last() == digit_char(n as int));
        assert(decimal_value(decimal(n).drop_last()) == 0);
        assert(decimal_value(decimal(n)) == decimal_value(decimal(n).drop_last()) * 10 + digit_value(
            decimal(n).last(),
        ));
    } else {
        lemma_decimal_canonical(n / 10);
        lemma_digit_char((n % 10) as int);
        let d = decimal(n);
        assert(d.drop_last() =~= decimal(n / 10));
        assert(d.last() == digit_char((n % 10) as int));
        assert((n / 10) * 10 + n % 10 == n);
        assert(decimal_value(d) == decimal_value(d.drop_last()) * 10 + digit_value(d.last()));
        assert(decimal_value(d.drop_last()) == n / 10);
        assert(d[0] == decimal(n / 10)[0]);
        assert forall|k: int| 0 <= k < d.len() implies is_digit(#[trigger] d[k]) by {
            if k < d.len() - 1 {
                assert(d[k] == decimal(n / 10)[k]);
            }
        }
    }
}

proof fn lemma_decimal_value_positive(d: Seq<char>)
    requires
        d.len() > 0,
        forall|k: int| 0 <= k < d.len() ==> is_digit(#[trigger] d[k]),
        d[0] != '0',
    ensures
        decimal_value(d) >= 1,
    decreases d.len(),
{
    if d.len() > 1 {
        let e = d.drop_last();
        assert(e[0] == d[0]);
        assert forall|k: int| 0 <= k < e.len() implies is_digit(#[trigger] e[k]) by {
            assert(e[k] == d[k]);
        }
        lemma_decimal_value_positive(e);
        assert(is_digit(d.last()));
        assert(digit_value(d.last()) >= 0);
    } else {
        assert(is_digit(d[0]));
        assert(d.last() == d[0]);
        assert(d.drop_last() =~= Seq::<char>::empty());
        assert(decimal_value(d.drop_last()) == 0);
    }
}

proof fn lemma_decimal_of_value(d: Seq<char>)
    requires
        is_canonical_decimal(d),
    ensures
        decimal(decimal_value(d) as nat) == d,
    decreases d.len(),
{
    let c = d.last();
    assert(is_digit(c));
    let e = d.drop_last();
    if d.len() == 1 {
        assert(e =~= Seq::<char>::empty());
        assert(decimal(decimal_value(d) as nat) =~= d);
    } else {
        assert(e[0] == d[0]);
        assert forall|k: int| 0 <= k < e.len() implies is_digit(#[trigger] e[k]) by {
            assert(e[k] == d[k]);
        }
        lemma_decimal_of_value(e);
        lemma_decimal_value_positive(e);
        let n = decimal_value(d);
        assert(n / 10 == decimal_value(e));
        assert(n % 10 == digit_value(c));
        assert(decimal(n as nat) =~= d);
    }
}

proof fn lemma_decimal_value_nonneg(d: Seq<char>)
    requires
        forall|j: int| 0 <= j < d.len() ==> is_digit(#[trigger] d[j]),
    ensures
        decimal_value(d) >= 0,
    decreases d.len(),
{
    if d.len() > 0 {
        let e = d.drop_last();
        assert forall|j: int| 0 <= j < e.len() implies is_digit(#[trigger] e[j]) by {
            assert(e[j] == d[j]);
        }
        lemma_decimal_value_nonneg(e);
        assert(is_digit(d.last()));
    }
}

proof fn lemma_decimal_value_prefix(d: Seq<char>, k: int)
    requires
        0 <= k <= d.len(),
        forall|j: int| 0 <= j < d.len() ==> is_digit(#[trigger] d[j]),
    ensures
        decimal_value(d.subrange(0, k)) <= decimal_value(d),
    decreases d.len() - k,
{
    if k < d.len() {
        lemma_decimal_value_prefix(d, k + 1);
        let p = d.subrange(0, k + 1);
        let q = d.subrange(0, k);
        assert(p.drop_last() =~= q);
        assert(p.last() == d[k]);
        assert(is_digit(d[k]));
        assert forall|j: int| 0 <= j < q.len() implies is_digit(#[trigger] q[j]) by {
            assert(q[j] == d[j]);
        }
        lemma_decimal_value_nonneg(q);
        assert(decimal_value(p) == decimal_value(q) * 10 + digit_value(d[k]));
        assert(decimal_value(p) >= decimal_value(q));
    } else {
        assert(d.subrange(0, k) =~= d);
    }
}

/// The number written in decimal in `v` from index `start` up to `end`.
fn scan_decimal(v: &[char], start: usize, end: usize) -> (res: Option<u64>)
    requires
        start <= end <= v.len(),
    ensures
        res matches Some(n) ==> v@.subrange(start as int, end as int) == decimal(n as nat),
        forall|n: u64| #[trigger] decimal(n as nat) == v@.subrange(start as int, end as int) ==> res
            == Some(n),
{
    let ghost d = v@.subrange(start as int, end as int);
    proof {
        assert forall|n: u64| #[trigger] decimal(n as nat) == d implies is_canonical_decimal(d)
            && decimal_value(d) == n by {
            lemma_decimal_canonical(n as nat);
        }
    }
    if start == end || (end - start > 1 && v[start] == '0') {
        proof {
            if d.len() > 0 {
                assert(d[0] == v@[start as int]);
            }
        }
        return None;
    }
    let mut value: u64 = 0;
    let mut i: usize = start;
    while i < end
        invariant
            start <= i <= end <= v.len(),
            d == v@.subrange(start as int, end as int),
            forall|n: u64| #[trigger]
                decimal(n as nat) == d ==> is_canonical_decimal(d) && decimal_value(d) == n,
            forall|k: int| start <= k < i ==> is_digit(#[trigger] v@[k]),
            value == decimal_value(v@.subrange(start as int, i as int)),
        decreases end - i,
    {
        let c = v[i];
        if !('0' <= c && c <= '9') {
            proof {
                assert(d[i - start] == c);
                assert(!is_digit(d[i - start]));
                assert(!is_canonical_decimal(d));
            }
            return None;
        }
        let dv = (c as u32 - 48) as u64;
        let ghost p = v@.subrange(start as int, i + 1);
        proof {
            assert(p.drop_last() =~= v@.subrange(start as int, i as int));
            assert(decimal_value(p) == value * 10 + dv);
            assert forall|k: int| 0 <= k < d.len() implies is_digit(#[trigger] d[k]) || k >= i - start + 1
                || !is_canonical_decimal(d) by {
                if k < i - start + 1 {
                    assert(d[k] == v@[start + k]);
                }
            }
            assert(p =~= d.subrange(0, i - start + 1));
            if is_canonical_decimal(d) {
                lemma_decimal_value_prefix(d, i - start + 1);
            }
        }
        let next = match value.checked_mul(10) {
            Some(m) => m.checked_add(dv),
            None => None,
        };
        match next {
            Some(x) => {
                value = x;
            },
            None => {
                proof {
                    assert(decimal_value(p) > u64::MAX);
                    assert(!is_canonical_decimal(d) || decimal_value(d) > u64::MAX);
                }
                return None;
            },
        }
        i = i + 1;
    }
    proof {
        assert(v@.subrange(start as int, i as int) == d);
        assert forall|k: int| 0 <= k < d.len() implies is_digit(#[trigger] d[k]) by {
            assert(d[k] == v@[start + k]);
        }
        assert(d[0] == v@[start as int]);
        lemma_decimal_of_value(d);
    }
    Some(value)
}

/// The record whose structured line is `t`, if there is one.
pub open spec fn structured_of(t: Seq<char>) -> Option<RecordView> {
    if exists|rv: RecordView| encode(rv) == t {
        Some(choose|rv: RecordView| encode(rv) == t)
    } else {
        None
    }
}

proof fn lemma_encode_parts(rv: RecordView)
    ensures
        encode(rv) == (key_alias() + quoted(rv.alias)) + ((key_secret() + quoted(rv.secret)) + ((
        key_flag() + bool_text(rv.is_unencrypted)) + ((key_algorithm() + quoted(rv.algorithm)) + (
        key_created() + decimal(rv.created_at as nat) + seq!['}'])))),
{
    assert(encode(rv) =~= (key_alias() + quoted(rv.alias)) + ((key_secret() + quoted(rv.secret))
        + ((key_flag() + bool_text(rv.is_unencrypted)) + ((key_algorithm() + quoted(rv.algorithm))
        + (key_created() + decimal(rv.created_at as nat) + seq!['}'])))));
}

/// A text whose part from `i` on is `p` followed by `rest`.
proof fn lemma_take(v: Seq<char>, i: int, p: Seq<char>, rest: Seq<char>)
    requires
        0 <= i <= v.len(),
        v.subrange(i, v.len() as int) == p + rest,
    ensures
        occurs_at(v, p, i),
        v.subrange(i + p.len(), v.len() as int) == rest,
{
    let w = v.subrange(i, v.len() as int);
    assert(w.len() == p.len() + rest.len());
    assert forall|k: int| 0 <= k < p.len() implies v[i + k] == p[k] by {
        assert(w[k] == v[i + k]);
        assert((p + rest)[k] == p[k]);
    }
    assert(v.subrange(i, i + p.len()) =~= p);
    assert forall|k: int| 0 <= k < rest.len() implies v[i + p.len() + k] == rest[k] by {
        assert(w[p.len() + k] == v[i + p.len() + k]);
        assert((p + rest)[p.len() + k] == rest[k]);
    }
    assert(v.subrange(i + p.len(), v.len() as int) =~= rest);
}

/// Two pieces that stand side by side.
proof fn lemma_join(v: Seq<char>, i: int, p: Seq<char>, q: Seq<char>)
    requires
        occurs_at(v, p, i),
        occurs_at(v, q, i + p.len()),
    ensures
        occurs_at(v, p + q, i),
{
    assert(v.subrange(i, i + p.len() + q.len()) =~= v.subrange(i, i + p.len()) + v.subrange(
        i + p.len(),
        i + p.len() + q.len(),
    ));
}

/// The key `key` at index `i` of `v`, then a JSON string: its text and the
/// index after it.
fn scan_field(v: &[char], i: usize, key: &[char]) -> (res: Option<(Vec<char>, usize)>)
    ensures
        res matches Some((s, end)) ==> occurs_at(v@, key@ + quoted(s@), i as int) && end == i
            + key@.len() + quoted(s@).len(),
        forall|q: Seq<char>|
            #[trigger] occurs_at(v@, key@ + quoted(q), i as int) ==> (res matches Some((s, _))
                && s@ == q),
{
    proof {
        assert forall|q: Seq<char>| #[trigger] occurs_at(v@, key@ + quoted(q), i as int) implies occurs_at(
            v@,
            key@,
            i as int,
        ) && occurs_at(v@, quoted(q), i + key@.len()) by {
            let w = key@ + quoted(q);
            assert(v@.subrange(i as int, i + key@.len()) =~= v@.subrange(i as int, i + w.len()).subrange(
                0,
                key@.len() as int,
            ));
            assert(w.subrange(0, key@.len() as int) =~= key@);
            assert(v@.subrange(i + key@.len(), i + w.len()) =~= v@.subrange(i as int, i + w.len()).subrange(
                key@.len() as int,
                w.len() as int,
            ));
            assert(w.subrange(key@.len() as int, w.len() as int) =~= quoted(q));
        }
    }
    if !crate::text::matches_at(v, key, i) {
        return None;
    }
    let j = i + key.len();
    match scan_quoted(v, j) {
        Some((s, end)) => {
            proof {
                lemma_join(v@, i as int, key@, quoted(s@));
            }
            Some((s, end))
        },
        None => None,
    }
}

proof fn lemma_assemble(
    v: Seq<char>,
    a: Seq<char>,
    b: Seq<char>,
    c: Seq<char>,
    d: Seq<char>,
    e: Seq<char>,
)
    requires
        occurs_at(v, a, 0),
        occurs_at(v, b, a.len() as int),
        occurs_at(v, c, (a.len() + b.len()) as int),
        occurs_at(v, d, (a.len() + b.len() + c.len()) as int),
        occurs_at(v, e, (a.len() + b.len() + c.len() + d.len()) as int),
        a.len() + b.len() + c.len() + d.len() + e.len() == v.len(),
    ensures
        v == a + (b + (c + (d + e))),
{
    lemma_join(v, 0, a, b);
    lemma_join(v, 0, a + b, c);
    lemma_join(v, 0, a + b + c, d);
    lemma_join(v, 0, a + b + c + d, e);
    assert(v.subrange(0, v.len() as int) =~= v);
    assert(a + b + c + d + e =~= a + (b + (c + (d + e))));
}

/// Parses the structured line `v`.
pub fn decode_structured(v: &[char]) -> (r: Option<Record>)
    ensures
        match r {
            Some(rec) => structured_of(v@) == Some(rec@),
            None => structured_of(v@) is None,
        },
{
    let ghost target: Option<RecordView> = structured_of(v@);
    let ghost n = v@.len() as int;
    proof {
        if let Some(rv) = target {
            lemma_encode_parts(rv);
            assert(v@.subrange(0, n) =~= v@);
            lemma_take(
                v@,
                0,
                key_alias() + quoted(rv.alias),
                (key_secret() + quoted(rv.secret)) + ((key_flag() + bool_text(rv.is_unencrypted)) + (
                (key_algorithm() + quoted(rv.algorithm)) + (key_created() + decimal(
                    rv.created_at as nat,
                ) + seq!['}']))),
            );
        }
    }
    let k_alias = ['{', '"', 'a', 'l', 'i', 'a', 's', '"', ':'];
    assert(k_alias@ == key_alias());
    let (alias, i) = match scan_field(v, 0, k_alias.as_slice()) {
        Some(p) => p,
        None => {
            return None;
        },
    };
    proof {
        if let Some(rv) = target {
            lemma_take(
                v@,
                i as int,
                key_secret() + quoted(rv.secret),
                (key_flag() + bool_text(rv.is_unencrypted)) + ((key_algorithm() + quoted(
                    rv.algorithm,
                )) + (key_created() + decimal(rv.created_at as nat) + seq!['}'])),
            );
        }
    }
    let k_secret = [',', '"', 's', 'e', 'c', 'r', 'e', 't', '"', ':'];
    assert(k_secret@ == key_secret());
    let (secret, i) = match scan_field(v, i, k_secret.as_slice()) {
        Some(p) => p,
        None => {
            return None;
        },
    };
    proof {
        if let Some(rv) = target {
            lemma_take(
                v@,
                i as int,
                key_flag() + bool_text(rv.is_unencrypted),
                (key_algorithm() + quoted(rv.algorithm)) + (key_created() + decimal(
                    rv.created_at as nat,
                ) + seq!['}']),
            );
        }
    }
    let (is_unencrypted, i) = match scan_flag(v, i) {
        Some(p) => p,
        None => {
            return None;
        },
    };
    proof {
        if let Some(rv) = target {
            lemma_take(
                v@,
                i as int,
                key_algorithm() + quoted(rv.algorithm),
                key_created() + decimal(rv.created_at as nat) + seq!['}'],
            );
        }
    }
    let k_algorithm = [',', '"', 'a', 'l', 'g', 'o', 'r', 'i', 't', 'h', 'm', '"', ':'];
    assert(k_algorithm@ == key_algorithm());
    let (algorithm, i) = match scan_field(v, i, k_algorithm.as_slice()) {
        Some(p) => p,
        None => {
            return None;
        },
    };
    proof {
        if let Some(rv) = target {
            let w = key_created() + decimal(rv.created_at as nat) + seq!['}'];
            assert(w + Seq::<char>::empty() =~= w);
            lemma_take(v@, i as int, w, Seq::<char>::empty());
        }
    }
    let created_at = match scan_created(v, i) {
        Some(c) => c,
        None => {
            return None;
        },
    };
    let rec = Record {
        alias: string_of(alias.as_slice()),
        secret: string_of(secret.as_slice()),
        is_unencrypted,
        algorithm: string_of(algorithm.as_slice()),
        created_at,
    };
    proof {
        lemma_assemble(
            v@,
            key_alias() + quoted(alias@),
            key_secret() + quoted(secret@),
            key_flag() + bool_text(is_unencrypted),
            key_algorithm() + quoted(algorithm@),
            key_created() + decimal(created_at as nat) + seq!['}'],
        );
        lemma_encode_parts(rec@);
    }
    Some(rec)
}

/// The key `is_unencrypted` at index `i` of `v`, then `true` or `false`.
fn scan_flag(v: &[char], i: usize) -> (res: Option<(bool, usize)>)
    ensures
        res matches Some((b, end)) ==> occurs_at(v@, key_flag() + bool_text(b), i as int) && end
            == i + key_flag().len() + bool_text(b).len(),
        forall|b: bool|
            #[trigger] occurs_at(v@, key_flag() + bool_text(b), i as int) ==> (res matches Some((
                x,
                _,
            )) && x == b),
{
    let t_true = [',', '"', 'i', 's', '_', 'u', 'n', 'e', 'n', 'c', 'r', 'y', 'p', 't', 'e', 'd', '"', ':', 't', 'r', 'u', 'e'];
    let t_false = [',', '"', 'i', 's', '_', 'u', 'n', 'e', 'n', 'c', 'r', 'y', 'p', 't', 'e', 'd', '"', ':', 'f', 'a', 'l', 's', 'e'];
    assert(t_true@ =~= key_flag() + bool_text(true));
    assert(t_false@ =~= key_flag() + bool_text(false));
    if crate::text::matches_at(v, t_true.as_slice(), i) {
        proof {
            if occurs_at(v@, t_false@, i as int) {
                assert(v@.subrange(i as int, i + 23)[18] == v@.subrange(i as int, i + 22)[18]);
            }
        }
        Some((true, i + 22))
    } else if crate::text::matches_at(v, t_false.as_slice(), i) {
        Some((false, i + 23))
    } else {
        None
    }
}

/// The key `created_at` at index `i` of `v`, a number, and the closing
/// brace that ends `v`.
fn scan_created(v: &[char], i: usize) -> (res: Option<u64>)
    ensures
        res matches Some(c) ==> i + (key_created() + decimal(c as nat) + seq!['}']).len() == v@.len()
            && occurs_at(v@, key_created() + decimal(c as nat) + seq!['}'], i as int),
        forall|c: u64|
            #[trigger] occurs_at(v@, key_created() + decimal(c as nat) + seq!['}'], i as int) && i
                + (key_created() + decimal(c as nat) + seq!['}']).len() == v@.len() ==> res
                == Some(c),
{
    let k_created = [',', '"', 'c', 'r', 'e', 'a', 't', 'e', 'd', '_', 'a', 't', '"', ':'];
    assert(k_created@ == key_created());
    let n = v.len();
    if !crate::text::matches_at(v, k_created.as_slice(), i) || n - i < 16 || v[n - 1] != '}' {
        proof {
            assert forall|c: u64|
                #[trigger] occurs_at(v@, key_created() + decimal(c as nat) + seq!['}'], i as int) implies i
                    + (key_created() + decimal(c as nat) + seq!['}']).len() != v@.len() by {
                let w = key_created() + decimal(c as nat) + seq!['}'];
                if i + w.len() == v@.len() {
                    lemma_decimal_canonical(c as nat);
                    assert(v@.subrange(i as int, i + 14) =~= w.subrange(0, 14));
                    assert(w.subrange(0, 14) =~= key_created());
                    assert(v@[n - 1] == v@.subrange(i as int, i + w.len())[w.len() - 1]);
                }
            }
        }
        return None;
    }
    let j = i + 14;
    let res = scan_decimal(v, j, n - 1);
    proof {
        assert forall|c: u64|
            #[trigger] occurs_at(v@, key_created() + decimal(c as nat) + seq!['}'], i as int) && i
                + (key_created() + decimal(c as nat) + seq!['}']).len() == v@.len() implies res
                == Some(c) by {
            let w = key_created() + decimal(c as nat) + seq!['}'];
            assert(v@.subrange(j as int, n - 1) =~= v@.subrange(i as int, i + w.len()).subrange(
                14,
                w.len() - 1,
            ));
            assert(w.subrange(14, w.len() - 1) =~= decimal(c as nat));
        }
        if let Some(c) = res {
            let w = key_created() + decimal(c as nat) + seq!['}'];
            assert(v@.subrange(i as int, n as int) =~= v@.subrange(i as int, j as int) + v@.subrange(
                j as int,
                n - 1,
            ) + v@.subrange(n - 1, n as int));
            assert(v@.subrange(i as int, n as int) =~= w);
        }
    }
    res
}

/// `s` cut at every `sep`: one piece more than it holds separators.
pub open spec fn split_seq(s: Seq<char>, sep: char) -> Seq<Seq<char>>
    decreases s.len(),
{
    if s.len() == 0 {
        seq![Seq::empty()]
    } else {
        let p = split_seq(s.drop_last(), sep);
        if s.last() == sep {
            p.push(Seq::empty())
        } else {
            p.update(p.len() - 1, p.last().push(s.last()))
        }
    }
}

pub proof fn lemma_split_nonempty(s: Seq<char>, sep: char)
    ensures
        split_seq(s, sep).len() >= 1,
    decreases s.len(),
{
    if s.len() > 0 {
        lemma_split_nonempty(s.drop_last(), sep);
    }
}

/// `s` cut at every `sep`.
pub fn split_chars(s: &[char], sep: char) -> (r: Vec<Vec<char>>)
    ensures
        r@.len() == split_seq(s@, sep).len(),
        forall|k: int| 0 <= k < r@.len() ==> #[trigger] r@[k]@ == split_seq(s@, sep)[k],
{
    let mut done: Vec<Vec<char>> = Vec::new();
    let mut cur: Vec<char> = Vec::new();
    let mut i: usize = 0;
    while i < s.len()
        invariant
            i <= s.len(),
            done@.len() + 1 == split_seq(s@.subrange(0, i as int), sep).len(),
            forall|k: int|
                0 <= k < done@.len() ==> #[trigger] done@[k]@ == split_seq(
                    s@.subrange(0, i as int),
                    sep,
                )[k],
            cur@ == split_seq(s@.subrange(0, i as int), sep).last(),
        decreases s.len() - i,
    {
        let ghost prev = s@.subrange(0, i as int);
        proof {
            lemma_split_nonempty(prev, sep);
            assert(s@.subrange(0, i + 1).drop_last() =~= prev);
            assert(s@.subrange(0, i + 1).last() == s@[i as int]);
        }
        if s[i] == sep {
            done.push(cur);
            cur = Vec::new();
        } else {
            cur.push(s[i]);
        }
        i = i + 1;
    }
    assert(s@.subrange(0, s@.len() as int) =~= s@);
    done.push(cur);
    done
}

/// The record of a legacy line `alias:secret:flag:algorithm`, the flag being
/// `1` for a plain secret; legacy lines carry no creation time.
pub open spec fn legacy_of(t: Seq<char>) -> Option<RecordView> {
    let f = split_seq(t, DELIMITER);
    if f.len() >= 4 {
        Some(
            RecordView {
                alias: f[0],
                secret: f[1],
                is_unencrypted: f[2] == seq!['1'],
                algorithm: f[3],
                created_at: 0,
            },
        )
    } else {
        None
    }
}

/// Parses the legacy line `v`.
pub fn decode_legacy(v: &[char]) -> (r: Option<Record>)
    ensures
        match r {
            Some(rec) => legacy_of(v@) == Some(rec@),
            None => legacy_of(v@) is None,
        },
{
    let f = split_chars(v, DELIMITER);
    if f.len() < 4 {
        return None;
    }
    let flag = f[2].len() == 1 && f[2][0] == '1';
    proof {
        assert(f@[2]@ == split_seq(v@, DELIMITER)[2]);
        if flag {
            assert(f@[2]@ =~= seq!['1']);
        }
    }
    Some(
        Record {
            alias: string_of(f[0].as_slice()),
            secret: string_of(f[1].as_slice()),
            is_unencrypted: flag,
            algorithm: string_of(f[3].as_slice()),
            created_at: 0,
        },
    )
}

pub(crate) fn push_all(out: &mut Vec<char>, s: &[char])
    ensures
        final(out)@ == old(out)@ + s@,
{
    let mut i: usize = 0;
    while i < s.len()
        invariant
            i <= s.len(),
            out@ == old(out)@ + s@.subrange(0, i as int),
        decreases s.len() - i,
    {
        out.push(s[i]);
        i = i + 1;
        assert(out@ =~= old(out)@ + s@.subrange(0, i as int));
    }
    assert(s@.subrange(0, s@.len() as int) =~= s@);
}

fn hex_char(d: u32) -> (c: char)
    requires
        d < 16,
    ensures
        c == hex_digit(d as int),
{
    match d {
        0 => '0',
        1 => '1',
        2 => '2',
        3 => '3',
        4 => '4',
        5 => '5',
        6 => '6',
        7 => '7',
        8 => '8',
        9 => '9',
        10 => 'a',
        11 => 'b',
        12 => 'c',
        13 => 'd',
        14 => 'e',
        _ => 'f',
    }
}

fn push_escaped_char(out: &mut Vec<char>, c: char)
    ensures
        final(out)@ == old(out)@ + escape_char(c),
{
    if c == '"' {
        out.push('\\');
        out.push('"');
    } else if c == '\\' {
        out.push('\\');
        out.push('\\');
    } else if ' ' > c {
        out.push('\\');
        out.push('u');
        out.push('0');
        out.push('0');
        out.push(hex_char((c as u32) / 16));
        out.push(hex_char((c as u32) % 16));
    } else {
        out.push(c);
    }
    assert(out@ =~= old(out)@ + escape_char(c));
}

pub(crate) fn push_quoted(out: &mut Vec<char>, s: &str)
    ensures
        final(out)@ == old(out)@ + quoted(s@),
{
    let cs = chars_of(s);
    out.push('"');
    let ghost start = out@;
    let mut i: usize = 0;
    while i < cs.len()
        invariant
            i <= cs.len(),
            cs@ == s@,
            start == old(out)@.push('"'),
            out@ == start + escape(cs@.subrange(0, i as int)),
        decreases cs.len() - i,
    {
        proof {
            lemma_escape_push(cs@.subrange(0, i as int), cs@[i as int]);
            assert(cs@.subrange(0, i as int).push(cs@[i as int]) =~= cs@.subrange(0, i + 1));
        }
        push_escaped_char(out, cs[i]);
        i = i + 1;
        assert(out@ =~= start + escape(cs@.subrange(0, i as int)));
    }
    out.push('"');
    assert(cs@.subrange(0, cs@.len() as int) =~= cs@);
    assert(out@ =~= old(out)@ + quoted(s@));
}

pub(crate) fn push_decimal(out: &mut Vec<char>, n: u64)
    ensures
        final(out)@ == old(out)@ + decimal(n as nat),
    decreases n,
{
    if n < 10 {
        out.push(hex_char(n as u32));
    } else {
        push_decimal(out, n / 10);
        out.push(hex_char((n % 10) as u32));
    }
    assert(out@ =~= old(out)@ + decimal(n as nat));
}

/// The structured line of `r`.
pub fn encode_record(r: &Record) -> (line: String)
    ensures
        line@ == encode(r@),
{
    let mut out: Vec<char> = Vec::new();
    push_all(&mut out, &['{', '"', 'a', 'l', 'i', 'a', 's', '"', ':']);
    push_quoted(&mut out, r.alias.as_str());
    push_all(&mut out, &[',', '"', 's', 'e', 'c', 'r', 'e', 't', '"', ':']);
    push_quoted(&mut out, r.secret.as_str());
    push_all(
        &mut out,
        &[',', '"', 'i', 's', '_', 'u', 'n', 'e', 'n', 'c', 'r', 'y', 'p', 't', 'e', 'd', '"', ':'],
    );
    if r.is_unencrypted {
        push_all(&mut out, &['t', 'r', 'u', 'e']);
    } else {
        push_all(&mut out, &['f', 'a', 'l', 's', 'e']);
    }
    push_all(&mut out, &[',', '"', 'a', 'l', 'g', 'o', 'r', 'i', 't', 'h', 'm', '"', ':']);
    push_quoted(&mut out, r.algorithm.as_str());
    push_all(&mut out, &[',', '"', 'c', 'r', 'e', 'a', 't', 'e', 'd', '_', 'a', 't', '"', ':']);
    push_decimal(&mut out, r.created_at);
    out.push('}');
    assert(out@ =~= encode(r@));
    string_of(out.as_slice())
}

/// Two escaped strings that both end at the first unescaped quote after `i`
/// are the same string.
proof fn lemma_escape_unique(v: Seq<char>, i: int, a: Seq<char>, b: Seq<char>)
    requires
        occurs_at(v, escape(a) + seq!['"'], i),
        occurs_at(v, escape(b) + seq!['"'], i),
    ensures
        a == b,
    decreases a.len(),
{
    lemma_escaped_step(v, i, a);
    lemma_escaped_step(v, i, b);
    if a.len() == 0 {
        assert(b.len() == 0);
        assert(a =~= b);
    } else {
        assert(b.len() > 0);
        let ca = a[0];
        let cb = b[0];
        lemma_char_range(ca);
        lemma_char_range(cb);
        if v[i] == '\\' && v[i + 1] == 'u' {
            let ha = ((ca as u32) / 16) as int;
            let hb = ((cb as u32) / 16) as int;
            let la = ((ca as u32) % 16) as int;
            let lb = ((cb as u32) % 16) as int;
            assert(0 <= ha < 16 && 0 <= hb < 16 && 0 <= la < 16 && 0 <= lb < 16);
            lemma_hex_injective(ha, hb);
            lemma_hex_injective(la, lb);
            assert((ca as u32) == (cb as u32));
        }
        assert(ca == cb);
        lemma_escape_unique(v, i + escape_char(ca).len(), a.drop_first(), b.drop_first());
        assert(a =~= seq![ca] + a.drop_first());
        assert(b =~= seq![cb] + b.drop_first());
    }
}

proof fn lemma_field_parts(key: Seq<char>, w: Seq<char>, z: Seq<char>)
    ensures
        occurs_at(key + quoted(w) + z, escape(w) + seq!['"'], (key.len() + 1) as int),
        (key + quoted(w) + z).subrange((key.len() + quoted(w).len()) as int, (key + quoted(w)
            + z).len() as int) == z,
{
    let v = key + quoted(w) + z;
    let i: int = (key.len() + 1) as int;
    let e = escape(w) + seq!['"'];
    assert(v.subrange(i, i + e.len()) =~= e) by {
        assert forall|k: int| 0 <= k < e.len() implies v[i + k] == e[k] by {
            assert(v[i + k] == quoted(w)[1 + k]);
        }
    }
    assert(v.subrange((key.len() + quoted(w).len()) as int, v.len() as int) =~= z);
}

/// A key followed by a JSON string determines the string and what follows.
proof fn lemma_quoted_field(
    key: Seq<char>,
    a: Seq<char>,
    x: Seq<char>,
    b: Seq<char>,
    y: Seq<char>,
)
    requires
        key + quoted(a) + x == key + quoted(b) + y,
    ensures
        a == b,
        x == y,
{
    let v = key + quoted(a) + x;
    let i: int = (key.len() + 1) as int;
    lemma_field_parts(key, a, x);
    lemma_field_parts(key, b, y);
    lemma_escape_unique(v, i as int, a, b);
}

proof fn lemma_decimal_injective(m: nat, n: nat)
    requires
        decimal(m) == decimal(n),
    ensures
        m == n,
{
    lemma_decimal_canonical(m);
    lemma_decimal_canonical(n);
}

/// Different records have different structured lines.
pub proof fn lemma_encode_injective(r1: RecordView, r2: RecordView)
    requires
        encode(r1) == encode(r2),
    ensures
        r1 == r2,
{
    lemma_encode_parts(r1);
    lemma_encode_parts(r2);
    let tail1 = (key_secret() + quoted(r1.secret)) + ((key_flag() + bool_text(r1.is_unencrypted))
        + ((key_algorithm() + quoted(r1.algorithm)) + (key_created() + decimal(
        r1.created_at as nat,
    ) + seq!['}'])));
    let tail2 = (key_secret() + quoted(r2.secret)) + ((key_flag() + bool_text(r2.is_unencrypted))
        + ((key_algorithm() + quoted(r2.algorithm)) + (key_created() + decimal(
        r2.created_at as nat,
    ) + seq!['}'])));
    assert(key_alias() + quoted(r1.alias) + tail1 == key_alias() + quoted(r2.alias) + tail2);
    lemma_quoted_field(key_alias(), r1.alias, tail1, r2.alias, tail2);
    let flag1 = (key_flag() + bool_text(r1.is_unencrypted)) + ((key_algorithm() + quoted(
        r1.algorithm,
    )) + (key_created() + decimal(r1.created_at as nat) + seq!['}']));
    let flag2 = (key_flag() + bool_text(r2.is_unencrypted)) + ((key_algorithm() + quoted(
        r2.algorithm,
    )) + (key_created() + decimal(r2.created_at as nat) + seq!['}']));
    assert(key_secret() + quoted(r1.secret) + flag1 == key_secret() + quoted(r2.secret) + flag2);
    lemma_quoted_field(key_secret(), r1.secret, flag1, r2.secret, flag2);
    assert(flag1[18] == flag2[18]);
    assert(r1.is_unencrypted == r2.is_unencrypted);
    let alg1 = key_created() + decimal(r1.created_at as nat) + seq!['}'];
    let alg2 = key_created() + decimal(r2.created_at as nat) + seq!['}'];
    assert(flag1 =~= key_flag() + bool_text(r1.is_unencrypted) + (key_algorithm() + quoted(
        r1.algorithm,
    ) + alg1));
    assert(flag2 =~= key_flag() + bool_text(r1.is_unencrypted) + (key_algorithm() + quoted(
        r2.algorithm,
    ) + alg2));
    assert(key_algorithm() + quoted(r1.algorithm) + alg1 =~= flag1.subrange(
        (key_flag() + bool_text(r1.is_unencrypted)).len() as int,
        flag1.len() as int,
    ));
    assert(key_algorithm() + quoted(r2.algorithm) + alg2 =~= flag2.subrange(
        (key_flag() + bool_text(r1.is_unencrypted)).len() as int,
        flag2.len() as int,
    ));
    lemma_quoted_field(key_algorithm(), r1.algorithm, alg1, r2.algorithm, alg2);
    assert(decimal(r1.created_at as nat) =~= alg1.subrange(14, alg1.len() - 1));
    assert(decimal(r2.created_at as nat) =~= alg2.subrange(14, alg2.len() - 1));
    lemma_decimal_injective(r1.created_at as nat, r2.created_at as nat);
}

/// Reading the structured line of a record gives that record back.
pub proof fn law_structured_round_trip(r: RecordView)
    ensures
        structured_of(encode(r)) == Some(r),
{
    let x = choose|rv: RecordView| encode(rv) == encode(r);
    lemma_encode_injective(x, r);
}

} // verus!
