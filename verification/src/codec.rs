//! The record-file codec.
//!
//! A store is written out as one JSON object whose top-level keys are the
//! record identifiers and whose values are the full record documents. The
//! renderer produces a fixed, canonical shape: the top level is one entry
//! per line, each record is a single-line object with its fields in a
//! fixed order, and strings escape `"` and `\`. The parser accepts
//! exactly that shape (and an all-whitespace file, which denotes an empty
//! store) and rejects everything else as malformed; in particular a
//! document that is well-formed JSON but laid out differently - other
//! whitespace, another field order, other escapes - is reported as a
//! `ParseError` rather than read. Parsing what the renderer wrote gives
//! the records back, which is proved below.

use vstd::prelude::*;

use crate::errors::StoreError;
use crate::models::Admin;
use crate::models::AdminView;
use crate::models::Employee;
use crate::models::EmployeeView;
use crate::store::views_of;
use crate::store::admin_views_of;
use crate::text::chars_to_string;
use crate::text::str_to_chars;

verus! {

// ---------------------------------------------------------------------
// Atoms: digits, keywords, escaping.
// ---------------------------------------------------------------------

pub open spec fn is_digit(c: char) -> bool {
    c == '0' || c == '1' || c == '2' || c == '3' || c == '4' || c == '5' || c == '6' || c == '7'
        || c == '8' || c == '9'
}

pub open spec fn digit_char(d: int) -> char {
    if d == 0 {
        '0'
    } else if d == 1 {
        '1'
    } else if d == 2 {
        '2'
    } else if d == 3 {
        '3'
    } else if d == 4 {
        '4'
    } else if d == 5 {
        '5'
    } else if d == 6 {
        '6'
    } else if d == 7 {
        '7'
    } else if d == 8 {
        '8'
    } else {
        '9'
    }
}

pub open spec fn char_digit(c: char) -> int {
    if c == '0' {
        0
    } else if c == '1' {
        1
    } else if c == '2' {
        2
    } else if c == '3' {
        3
    } else if c == '4' {
        4
    } else if c == '5' {
        5
    } else if c == '6' {
        6
    } else if c == '7' {
        7
    } else if c == '8' {
        8
    } else {
        9
    }
}

pub open spec fn null_text() -> Seq<char> {
    seq!['n', 'u', 'l', 'l']
}

pub open spec fn true_text() -> Seq<char> {
    seq!['t', 'r', 'u', 'e']
}

pub open spec fn false_text() -> Seq<char> {
    seq!['f', 'a', 'l', 's', 'e']
}

/// How one character is written inside a quoted string.
pub open spec fn esc_char(c: char) -> Seq<char> {
    if c == '"' || c == '\\' {
        seq!['\\', c]
    } else {
        seq![c]
    }
}

/// How a whole string body is written inside quotes.
pub open spec fn esc(s: Seq<char>) -> Seq<char>
    decreases s.len(),
{
    if s.len() == 0 {
        Seq::empty()
    } else {
        esc_char(s[0]) + esc(s.subrange(1, s.len() as int))
    }
}

/// A quoted, escaped string.
pub open spec fn quoted(s: Seq<char>) -> Seq<char> {
    seq!['"'] + esc(s) + seq!['"']
}

pub open spec fn opt_str_text(o: Option<Seq<char>>) -> Seq<char> {
    match o {
        None => null_text(),
        Some(s) => quoted(s),
    }
}

pub open spec fn bool_text(b: bool) -> Seq<char> {
    if b {
        true_text()
    } else {
        false_text()
    }
}

pub open spec fn opt_bool_text(o: Option<bool>) -> Seq<char> {
    match o {
        None => null_text(),
        Some(b) => bool_text(b),
    }
}

/// The decimal digits of a non-negative number.
pub open spec fn dec_text(n: int) -> Seq<char>
    decreases n,
{
    if n < 10 {
        seq![digit_char(n)]
    } else {
        dec_text(n / 10).push(digit_char(n % 10))
    }
}

// ---------------------------------------------------------------------
// Record and file shapes.
// ---------------------------------------------------------------------

/// A field: its key text followed by its value text and the rest of the
/// record, grouped so the record shape peels off one field at a time.
pub open spec fn fld(k: Seq<char>, v: Seq<char>, rest: Seq<char>) -> Seq<char> {
    k + (v + rest)
}

pub open spec fn k_id() -> Seq<char> {
    "{\"id\": "@
}

pub open spec fn k_first_name() -> Seq<char> {
    ", \"first_name\": "@
}

pub open spec fn k_last_name() -> Seq<char> {
    ", \"last_name\": "@
}

pub open spec fn k_personal_email() -> Seq<char> {
    ", \"personal_email\": "@
}

pub open spec fn k_work_email() -> Seq<char> {
    ", \"work_email\": "@
}

pub open spec fn k_age() -> Seq<char> {
    ", \"age\": "@
}

pub open spec fn k_diploma() -> Seq<char> {
    ", \"diploma\": "@
}

pub open spec fn k_onboarded() -> Seq<char> {
    ", \"onboarded\": "@
}

pub open spec fn k_handle() -> Seq<char> {
    ", \"handle\": "@
}

pub open spec fn k_password() -> Seq<char> {
    ", \"password\": "@
}

pub open spec fn k_secure_password() -> Seq<char> {
    ", \"secure_password\": "@
}

/// One employee record as a single-line object.
pub open spec fn employee_text(e: EmployeeView) -> Seq<char> {
    fld(
        k_id(),
        opt_str_text(e.id),
        fld(
            k_first_name(),
            quoted(e.first_name),
            fld(
                k_last_name(),
                quoted(e.last_name),
                fld(
                    k_personal_email(),
                    opt_str_text(e.personal_email),
                    fld(
                        k_work_email(),
                        opt_str_text(e.work_email),
                        fld(
                            k_age(),
                            dec_text(e.age as int),
                            fld(
                                k_diploma(),
                                quoted(e.diploma),
                                fld(
                                    k_onboarded(),
                                    opt_bool_text(e.onboarded),
                                    fld(
                                        k_handle(),
                                        opt_str_text(e.handle),
                                        fld(
                                            k_password(),
                                            opt_str_text(e.password),
                                            fld(
                                                k_secure_password(),
                                                opt_bool_text(e.secure_password),
                                                seq!['}'],
                                            ),
                                        ),
                                    ),
                                ),
                            ),
                        ),
                    ),
                ),
            ),
        ),
    )
}

/// One top-level entry: the identifier as key, then the record.
pub open spec fn entry_text(e: EmployeeView) -> Seq<char> {
    seq![' ', ' '] + (quoted(e.id->0) + (seq![':', ' '] + employee_text(e)))
}

/// One or more entries, separated by `,` and a line break.
pub open spec fn entries_text(s: Seq<EmployeeView>) -> Seq<char>
    decreases s.len(),
{
    if s.len() <= 1 {
        if s.len() == 0 {
            Seq::empty()
        } else {
            entry_text(s[0])
        }
    } else {
        entry_text(s[0]) + (seq![',', '\n'] + entries_text(s.subrange(1, s.len() as int)))
    }
}

/// The whole record file.
pub open spec fn store_text(s: Seq<EmployeeView>) -> Seq<char> {
    if s.len() == 0 {
        seq!['{', '}']
    } else {
        seq!['{', '\n'] + (entries_text(s) + seq!['\n', '}'])
    }
}

/// One admin record as a single-line object.
pub open spec fn admin_text(a: AdminView) -> Seq<char> {
    fld(k_id(), quoted(a.id), fld(k_password(), opt_str_text(a.password), seq!['}']))
}

pub open spec fn admin_entry_text(a: AdminView) -> Seq<char> {
    seq![' ', ' '] + (quoted(a.id) + (seq![':', ' '] + admin_text(a)))
}

pub open spec fn admin_entries_text(s: Seq<AdminView>) -> Seq<char>
    decreases s.len(),
{
    if s.len() <= 1 {
        if s.len() == 0 {
            Seq::empty()
        } else {
            admin_entry_text(s[0])
        }
    } else {
        admin_entry_text(s[0]) + (seq![',', '\n'] + admin_entries_text(
            s.subrange(1, s.len() as int),
        ))
    }
}

pub open spec fn admin_store_text(s: Seq<AdminView>) -> Seq<char> {
    if s.len() == 0 {
        seq!['{', '}']
    } else {
        seq!['{', '\n'] + (admin_entries_text(s) + seq!['\n', '}'])
    }
}

/// Every record in the sequence carries an identifier.
pub open spec fn ids_present(s: Seq<EmployeeView>) -> bool {
    forall|i: int| 0 <= i < s.len() ==> (#[trigger] s[i]).id is Some
}

// ---------------------------------------------------------------------
// Rendering.
// ---------------------------------------------------------------------

proof fn lemma_esc_push(s: Seq<char>, c: char)
    ensures
        esc(s.push(c)) == esc(s) + esc_char(c),
    decreases s.len(),
{
    let p = s.push(c);
    if s.len() == 0 {
        assert(p[0] == c);
        assert(p.subrange(1, 1) =~= Seq::<char>::empty());
        assert(esc(p) == esc_char(c) + esc(p.subrange(1, 1)));
        assert(esc(p) =~= esc(s) + esc_char(c));
    } else {
        let t = s.subrange(1, s.len() as int);
        assert(p[0] == s[0]);
        assert(p.subrange(1, p.len() as int) =~= t.push(c));
        lemma_esc_push(t, c);
        assert(esc(p) == esc_char(p[0]) + esc(p.subrange(1, p.len() as int)));
        assert(esc(p.subrange(1, p.len() as int)) == esc(t) + esc_char(c));
        assert(esc(s) == esc_char(s[0]) + esc(t));
        assert(esc(p) =~= esc(s) + esc_char(c));
    }
}

fn append_str(out: &mut Vec<char>, lit: &str)
    ensures
        final(out)@ == old(out)@ + lit@,
{
    let l = str_to_chars(lit);
    let n = l.len();
    let mut k: usize = 0;
    while k < n
        invariant
            n == l@.len(),
            l@ == lit@,
            k <= n,
            out@ == old(out)@ + lit@.take(k as int),
        decreases n - k,
    {
        out.push(l[k]);
        proof {
            assert(old(out)@ + lit@.take(k as int) + seq![lit@[k as int]] =~= old(out)@
                + lit@.take(k + 1));
        }
        k += 1;
    }
    proof {
        assert(old(out)@ + lit@.take(n as int) =~= old(out)@ + lit@);
    }
}

fn append_escaped(out: &mut Vec<char>, s: &String)
    ensures
        final(out)@ == old(out)@ + esc(s@),
{
    let cs = str_to_chars(s.as_str());
    let n = cs.len();
    let mut k: usize = 0;
    while k < n
        invariant
            n == cs@.len(),
            cs@ == s@,
            k <= n,
            out@ == old(out)@ + esc(s@.take(k as int)),
        decreases n - k,
    {
        let c = cs[k];
        if c == '"' || c == '\\' {
            out.push('\\');
            out.push(c);
        } else {
            out.push(c);
        }
        proof {
            lemma_esc_push(s@.take(k as int), c);
            assert(s@.take(k + 1) =~= s@.take(k as int).push(c));
            assert(out@ =~= old(out)@ + esc(s@.take(k + 1)));
        }
        k += 1;
    }
    proof {
        assert(s@.take(n as int) =~= s@);
    }
}

fn append_quoted(out: &mut Vec<char>, s: &String)
    ensures
        final(out)@ == old(out)@ + quoted(s@),
{
    out.push('"');
    append_escaped(out, s);
    out.push('"');
    proof {
        assert(out@ =~= old(out)@ + quoted(s@));
    }
}

fn append_opt_str(out: &mut Vec<char>, o: &Option<String>)
    ensures
        final(out)@ == old(out)@ + opt_str_text(o.deep_view()),
{
    match o {
        None => {
            append_str(out, "null");
            proof {
                assert("null"@ =~= null_text()) by {
                    reveal_strlit("null");
                }
            }
        },
        Some(s) => {
            append_quoted(out, s);
        },
    }
}

fn append_bool(out: &mut Vec<char>, b: bool)
    ensures
        final(out)@ == old(out)@ + bool_text(b),
{
    if b {
        append_str(out, "true");
        proof {
            assert("true"@ =~= true_text()) by {
                reveal_strlit("true");
            }
        }
    } else {
        append_str(out, "false");
        proof {
            assert("false"@ =~= false_text()) by {
                reveal_strlit("false");
            }
        }
    }
}

fn append_opt_bool(out: &mut Vec<char>, o: &Option<bool>)
    ensures
        final(out)@ == old(out)@ + opt_bool_text(*o),
{
    match o {
        None => {
            append_str(out, "null");
            proof {
                assert("null"@ =~= null_text()) by {
                    reveal_strlit("null");
                }
            }
        },
        Some(b) => {
            append_bool(out, *b);
        },
    }
}

fn digit_to_char(d: u32) -> (c: char)
    requires
        d < 10,
    ensures
        c == digit_char(d as int),
{
    match d {
        0 => '0',
        1 => '1',
        2 => '2',
        3 => '3',
        4 => '4',
        5 => '5',
        6 => '6',
        7 => '7',
        8 => '8',
        _ => '9',
    }
}

pub(crate) fn append_dec(out: &mut Vec<char>, n: u64)
    ensures
        final(out)@ == old(out)@ + dec_text(n as int),
    decreases n,
{
    if n < 10 {
        out.push(digit_to_char((n % 10) as u32));
        proof {
            assert(out@ =~= old(out)@ + dec_text(n as int));
        }
    } else {
        append_dec(out, n / 10);
        out.push(digit_to_char((n % 10) as u32));
        proof {
            assert(out@ =~= old(out)@ + dec_text(n as int));
        }
    }
}

#[verifier::rlimit(100)]
fn append_employee(out: &mut Vec<char>, e: &Employee)
    ensures
        final(out)@ == old(out)@ + employee_text(e@),
{
    append_str(out, "{\"id\": ");
    append_opt_str(out, &e.id);
    let ghost o1 = out@;
    append_str(out, ", \"first_name\": ");
    append_quoted(out, &e.first_name);
    let ghost o2 = out@;
    append_str(out, ", \"last_name\": ");
    append_quoted(out, &e.last_name);
    let ghost o3 = out@;
    append_str(out, ", \"personal_email\": ");
    append_opt_str(out, &e.personal_email);
    let ghost o4 = out@;
    append_str(out, ", \"work_email\": ");
    append_opt_str(out, &e.work_email);
    let ghost o5 = out@;
    append_str(out, ", \"age\": ");
    append_dec(out, e.age as u64);
    let ghost o6 = out@;
    append_str(out, ", \"diploma\": ");
    append_quoted(out, &e.diploma);
    let ghost o7 = out@;
    append_str(out, ", \"onboarded\": ");
    append_opt_bool(out, &e.onboarded);
    let ghost o8 = out@;
    append_str(out, ", \"handle\": ");
    append_opt_str(out, &e.handle);
    let ghost o9 = out@;
    append_str(out, ", \"password\": ");
    append_opt_str(out, &e.password);
    let ghost o10 = out@;
    append_str(out, ", \"secure_password\": ");
    append_opt_bool(out, &e.secure_password);
    out.push('}');
    proof {
        let v = e@;
        let s11 = fld(k_secure_password(), opt_bool_text(v.secure_password), seq!['}']);
        let s10 = fld(k_password(), opt_str_text(v.password), s11);
        let s9 = fld(k_handle(), opt_str_text(v.handle), s10);
        let s8 = fld(k_onboarded(), opt_bool_text(v.onboarded), s9);
        let s7 = fld(k_diploma(), quoted(v.diploma), s8);
        let s6 = fld(k_age(), dec_text(v.age as int), s7);
        let s5 = fld(k_work_email(), opt_str_text(v.work_email), s6);
        let s4 = fld(k_personal_email(), opt_str_text(v.personal_email), s5);
        let s3 = fld(k_last_name(), quoted(v.last_name), s4);
        let s2 = fld(k_first_name(), quoted(v.first_name), s3);
        let s1 = fld(k_id(), opt_str_text(v.id), s2);
        assert(out@ =~= o10 + s11);
        assert(o10 + s11 =~= o9 + s10);
        assert(o9 + s10 =~= o8 + s9);
        assert(o8 + s9 =~= o7 + s8);
        assert(o7 + s8 =~= o6 + s7);
        assert(o6 + s7 =~= o5 + s6);
        assert(o5 + s6 =~= o4 + s5);
        assert(o4 + s5 =~= o3 + s4);
        assert(o3 + s4 =~= o2 + s3);
        assert(o2 + s3 =~= o1 + s2);
        assert(o1 + s2 =~= old(out)@ + s1);
        assert(s1 == employee_text(v));
    }
}

fn append_entry(out: &mut Vec<char>, e: &Employee)
    requires
        e@.id is Some,
    ensures
        final(out)@ == old(out)@ + entry_text(e@),
{
    append_str(out, "  ");
    match &e.id {
        Some(id) => {
            append_quoted(out, id);
        },
        None => {
            proof {
                assert(false);
            }
        },
    }
    append_str(out, ": ");
    append_employee(out, e);
    proof {
        assert("  "@ =~= seq![' ', ' ']) by {
            reveal_strlit("  ");
        }
        assert(": "@ =~= seq![':', ' ']) by {
            reveal_strlit(": ");
        }
        assert(out@ =~= old(out)@ + entry_text(e@));
    }
}

proof fn lemma_entries_push(s: Seq<EmployeeView>, e: EmployeeView)
    requires
        s.len() >= 1,
    ensures
        entries_text(s.push(e)) == entries_text(s) + seq![',', '\n'] + entry_text(e),
    decreases s.len(),
{
    let t = s.push(e);
    assert(t[0] == s[0]);
    assert(t.subrange(1, t.len() as int) =~= s.subrange(1, s.len() as int).push(e));
    if s.len() == 1 {
        assert(t.subrange(1, 2) =~= seq![e]);
        assert(entries_text(t) == entry_text(t[0]) + (seq![',', '\n'] + entries_text(
            t.subrange(1, 2),
        )));
        assert(entries_text(t.subrange(1, 2)) == entry_text(e));
        assert(entries_text(t) =~= entries_text(s) + seq![',', '\n'] + entry_text(e));
    } else {
        let u = s.subrange(1, s.len() as int);
        lemma_entries_push(u, e);
        assert(entries_text(t) == entry_text(t[0]) + (seq![',', '\n'] + entries_text(
            t.subrange(1, t.len() as int),
        )));
        assert(entries_text(t.subrange(1, t.len() as int)) == entries_text(u) + seq![',', '\n']
            + entry_text(e));
        assert(entries_text(s) == entry_text(s[0]) + (seq![',', '\n'] + entries_text(u)));
        assert(entries_text(t) =~= entries_text(s) + seq![',', '\n'] + entry_text(e));
    }
}

/// Render the records as the canonical record file.
pub fn render_records(records: &Vec<Employee>) -> (out: Vec<char>)
    requires
        ids_present(views_of(records@)),
    ensures
        out@ == store_text(views_of(records@)),
{
    let ghost v = views_of(records@);
    let n = records.len();
    let mut out: Vec<char> = Vec::new();
    if n == 0 {
        out.push('{');
        out.push('}');
        proof {
            assert(out@ =~= store_text(v));
        }
        return out;
    }
    out.push('{');
    out.push('\n');
    let mut i: usize = 0;
    while i < n
        invariant
            1 <= n == records.len(),
            v == views_of(records@),
            ids_present(v),
            i <= n,
            i == 0 ==> out@ == seq!['{', '\n'],
            i >= 1 ==> out@ == seq!['{', '\n'] + entries_text(v.take(i as int)),
        decreases n - i,
    {
        if i > 0 {
            out.push(',');
            out.push('\n');
        }
        let ghost pre = out@;
        append_entry(&mut out, &records[i]);
        proof {
            if i == 0 {
                assert(v.take(1) =~= seq![v[0]]);
                assert(out@ =~= seq!['{', '\n'] + entries_text(v.take(1)));
            } else {
                assert(v.take(i as int).len() >= 1);
                lemma_entries_push(v.take(i as int), v[i as int]);
                assert(v.take(i + 1) =~= v.take(i as int).push(v[i as int]));
                assert(out@ =~= seq!['{', '\n'] + entries_text(v.take(i + 1)));
            }
        }
        i += 1;
    }
    out.push('\n');
    out.push('}');
    proof {
        assert(v.take(n as int) =~= v);
        assert(out@ =~= store_text(v));
    }
    out
}

// ---------------------------------------------------------------------
// Parsing: specification.
// ---------------------------------------------------------------------

/// Positions `i..i+lit.len()` hold exactly `lit`.
pub open spec fn spec_expect(s: Seq<char>, i: int, lit: Seq<char>) -> Option<int> {
    if 0 <= i && i + lit.len() <= s.len() && s.subrange(i, i + lit.len()) == lit {
        Some(i + lit.len())
    } else {
        None
    }
}

/// The body of a quoted string, read up to and including the closing
/// quote; escape pairs collapse to the escaped character.
pub open spec fn spec_parse_string_body(s: Seq<char>, i: int) -> Option<(Seq<char>, int)>
    decreases s.len() - i,
{
    if i < 0 || i >= s.len() {
        None
    } else if s[i] == '"' {
        Some((Seq::empty(), i + 1))
    } else if s[i] == '\\' {
        if i + 1 < s.len() && (s[i + 1] == '"' || s[i + 1] == '\\') {
            match spec_parse_string_body(s, i + 2) {
                None => None,
                Some((t, j)) => Some((seq![s[i + 1]] + t, j)),
            }
        } else {
            None
        }
    } else {
        match spec_parse_string_body(s, i + 1) {
            None => None,
            Some((t, j)) => Some((seq![s[i]] + t, j)),
        }
    }
}

pub open spec fn spec_parse_string(s: Seq<char>, i: int) -> Option<(Seq<char>, int)> {
    match spec_expect(s, i, seq!['"']) {
        None => None,
        Some(j) => spec_parse_string_body(s, j),
    }
}

pub open spec fn spec_parse_opt_string(s: Seq<char>, i: int) -> Option<(Option<Seq<char>>, int)> {
    match spec_expect(s, i, null_text()) {
        Some(j) => Some((None, j)),
        None => match spec_parse_string(s, i) {
            None => None,
            Some((t, j)) => Some((Some(t), j)),
        },
    }
}

pub open spec fn spec_parse_bool(s: Seq<char>, i: int) -> Option<(bool, int)> {
    match spec_expect(s, i, true_text()) {
        Some(j) => Some((true, j)),
        None => match spec_expect(s, i, false_text()) {
            Some(j) => Some((false, j)),
            None => None,
        },
    }
}

pub open spec fn spec_parse_opt_bool(s: Seq<char>, i: int) -> Option<(Option<bool>, int)> {
    match spec_expect(s, i, null_text()) {
        Some(j) => Some((None, j)),
        None => match spec_parse_bool(s, i) {
            None => None,
            Some((b, j)) => Some((Some(b), j)),
        },
    }
}

/// The first position at or after `i` that does not hold a digit.
pub open spec fn digits_end(s: Seq<char>, i: int) -> int
    decreases s.len() - i,
{
    if 0 <= i && i < s.len() && is_digit(s[i]) {
        digits_end(s, i + 1)
    } else {
        i
    }
}

/// The value of the digits at positions `i..j`.
pub open spec fn digits_val(s: Seq<char>, i: int, j: int) -> int
    decreases j - i,
{
    if i >= j {
        0
    } else {
        digits_val(s, i, j - 1) * 10 + char_digit(s[j - 1])
    }
}

/// A decimal number: a maximal run of digits, no leading zero, value in
/// `u32` range.
pub open spec fn spec_parse_u32(s: Seq<char>, i: int) -> Option<(u32, int)> {
    let j = digits_end(s, i);
    if j == i {
        None
    } else if s[i] == '0' && j > i + 1 {
        None
    } else if digits_val(s, i, j) > u32::MAX {
        None
    } else {
        Some((digits_val(s, i, j) as u32, j))
    }
}

pub open spec fn spec_field_str(s: Seq<char>, i: int, k: Seq<char>) -> Option<(Seq<char>, int)> {
    match spec_expect(s, i, k) {
        None => None,
        Some(j) => spec_parse_string(s, j),
    }
}

pub open spec fn spec_field_opt_str(s: Seq<char>, i: int, k: Seq<char>) -> Option<
    (Option<Seq<char>>, int),
> {
    match spec_expect(s, i, k) {
        None => None,
        Some(j) => spec_parse_opt_string(s, j),
    }
}

pub open spec fn spec_field_u32(s: Seq<char>, i: int, k: Seq<char>) -> Option<(u32, int)> {
    match spec_expect(s, i, k) {
        None => None,
        Some(j) => spec_parse_u32(s, j),
    }
}

pub open spec fn spec_field_opt_bool(s: Seq<char>, i: int, k: Seq<char>) -> Option<
    (Option<bool>, int),
> {
    match spec_expect(s, i, k) {
        None => None,
        Some(j) => spec_parse_opt_bool(s, j),
    }
}

/// One employee record, fields in canonical order.
pub open spec fn spec_parse_employee(s: Seq<char>, i: int) -> Option<(EmployeeView, int)> {
    match spec_field_opt_str(s, i, k_id()) {
        None => None,
        Some((id, p1)) => match spec_field_str(s, p1, k_first_name()) {
            None => None,
            Some((first_name, p2)) => match spec_field_str(s, p2, k_last_name()) {
                None => None,
                Some((last_name, p3)) => match spec_field_opt_str(s, p3, k_personal_email()) {
                    None => None,
                    Some((personal_email, p4)) => match spec_field_opt_str(s, p4, k_work_email()) {
                        None => None,
                        Some((work_email, p5)) => match spec_field_u32(s, p5, k_age()) {
                            None => None,
                            Some((age, p6)) => match spec_field_str(s, p6, k_diploma()) {
                                None => None,
                                Some((diploma, p7)) => match spec_field_opt_bool(
                                    s,
                                    p7,
                                    k_onboarded(),
                                ) {
                                    None => None,
                                    Some((onboarded, p8)) => match spec_field_opt_str(
                                        s,
                                        p8,
                                        k_handle(),
                                    ) {
                                        None => None,
                                        Some((handle, p9)) => match spec_field_opt_str(
                                            s,
                                            p9,
                                            k_password(),
                                        ) {
                                            None => None,
                                            Some((password, p10)) => match spec_field_opt_bool(
                                                s,
                                                p10,
                                                k_secure_password(),
                                            ) {
                                                None => None,
                                                Some((secure_password, p11)) => match spec_expect(
                                                    s,
                                                    p11,
                                                    seq!['}'],
                                                ) {
                                                    None => None,
                                                    Some(j) => Some(
                                                        (
                                                            EmployeeView {
                                                                id,
                                                                first_name,
                                                                last_name,
                                                                personal_email,
                                                                work_email,
                                                                age,
                                                                diploma,
                                                                onboarded,
                                                                handle,
                                                                password,
                                                                secure_password,
                                                            },
                                                            j,
                                                        ),
                                                    ),
                                                },
                                            },
                                        },
                                    },
                                },
                            },
                        },
                    },
                },
            },
        },
    }
}

/// One top-level entry; the entry key must equal the record's identifier.
pub open spec fn spec_parse_entry(s: Seq<char>, i: int) -> Option<(EmployeeView, int)> {
    match spec_expect(s, i, seq![' ', ' ']) {
        None => None,
        Some(p0) => match spec_parse_string(s, p0) {
            None => None,
            Some((key, p1)) => match spec_expect(s, p1, seq![':', ' ']) {
                None => None,
                Some(p2) => match spec_parse_employee(s, p2) {
                    None => None,
                    Some((e, j)) => if e.id == Some(key) {
                        Some((e, j))
                    } else {
                        None
                    },
                },
            },
        },
    }
}

// ---------------------------------------------------------------------
// Parsing: every parser moves the position forward and stays in bounds.
// ---------------------------------------------------------------------

pub broadcast proof fn lemma_string_body_adv(s: Seq<char>, i: int)
    ensures
        (#[trigger] spec_parse_string_body(s, i)) matches Some(r) ==> i < r.1 <= s.len(),
    decreases s.len() - i,
{
    if 0 <= i && i < s.len() {
        if s[i] == '\\' {
            if i + 1 < s.len() {
                lemma_string_body_adv(s, i + 2);
            }
        } else if s[i] != '"' {
            lemma_string_body_adv(s, i + 1);
        }
    }
}

pub broadcast proof fn lemma_string_adv(s: Seq<char>, i: int)
    ensures
        (#[trigger] spec_parse_string(s, i)) matches Some(r) ==> i < r.1 <= s.len(),
{
    broadcast use lemma_string_body_adv;

}

pub broadcast proof fn lemma_opt_string_adv(s: Seq<char>, i: int)
    ensures
        (#[trigger] spec_parse_opt_string(s, i)) matches Some(r) ==> i < r.1 <= s.len(),
{
    broadcast use lemma_string_adv;

}

pub broadcast proof fn lemma_opt_bool_adv(s: Seq<char>, i: int)
    ensures
        (#[trigger] spec_parse_opt_bool(s, i)) matches Some(r) ==> i < r.1 <= s.len(),
{
}

pub broadcast proof fn lemma_digits_end_bounds(s: Seq<char>, i: int)
    requires
        0 <= i <= s.len(),
    ensures
        i <= #[trigger] digits_end(s, i) <= s.len(),
    decreases s.len() - i,
{
    if i < s.len() && is_digit(s[i]) {
        lemma_digits_end_bounds(s, i + 1);
    }
}

pub broadcast proof fn lemma_u32_adv(s: Seq<char>, i: int)
    ensures
        (#[trigger] spec_parse_u32(s, i)) matches Some(r) ==> i < r.1 <= s.len(),
{
    if spec_parse_u32(s, i) is Some {
        if 0 <= i <= s.len() {
            lemma_digits_end_bounds(s, i);
        }
    }
}

pub broadcast proof fn lemma_employee_adv(s: Seq<char>, i: int)
    ensures
        (#[trigger] spec_parse_employee(s, i)) matches Some(r) ==> i < r.1 <= s.len(),
{
    broadcast use lemma_string_adv, lemma_opt_string_adv, lemma_opt_bool_adv, lemma_u32_adv;

}

pub broadcast proof fn lemma_entry_adv(s: Seq<char>, i: int)
    ensures
        (#[trigger] spec_parse_entry(s, i)) matches Some(r) ==> i < r.1 <= s.len(),
{
    broadcast use lemma_string_adv, lemma_employee_adv;

}

/// The entries of the file, separated by `,` and a line break.
pub open spec fn spec_parse_entries(s: Seq<char>, i: int) -> Option<(Seq<EmployeeView>, int)>
    decreases s.len() - i,
    via spec_parse_entries_decreases
{
    match spec_parse_entry(s, i) {
        None => None,
        Some((e, j)) => match spec_expect(s, j, seq![',', '\n']) {
            None => Some((seq![e], j)),
            Some(j2) => match spec_parse_entries(s, j2) {
                None => None,
                Some((rest, j3)) => Some((seq![e] + rest, j3)),
            },
        },
    }
}

#[via_fn]
proof fn spec_parse_entries_decreases(s: Seq<char>, i: int) {
    broadcast use lemma_entry_adv;

}

/// The whole record file: `{}`, or `{`, entries, `}` on their own lines.
pub open spec fn spec_parse_store(s: Seq<char>) -> Option<Seq<EmployeeView>> {
    if s == seq!['{', '}'] {
        Some(Seq::empty())
    } else {
        match spec_expect(s, 0, seq!['{', '\n']) {
            None => None,
            Some(p0) => match spec_parse_entries(s, p0) {
                None => None,
                Some((es, p1)) => if spec_expect(s, p1, seq!['\n', '}']) == Some(s.len() as int) {
                    Some(es)
                } else {
                    None
                },
            },
        }
    }
}

pub open spec fn is_ws(c: char) -> bool {
    c == ' ' || c == '\n' || c == '\r' || c == '\t'
}

pub open spec fn all_ws(s: Seq<char>) -> bool {
    forall|k: int| 0 <= k < s.len() ==> is_ws(#[trigger] s[k])
}

/// The record file as read from disk: an all-whitespace file denotes an
/// empty store; anything else must be the canonical shape.
pub open spec fn spec_parse_file(s: Seq<char>) -> Option<Seq<EmployeeView>> {
    if all_ws(s) {
        Some(Seq::empty())
    } else {
        spec_parse_store(s)
    }
}

// ---------------------------------------------------------------------
// Parsing: executable parsers, each equal to its specification.
// ---------------------------------------------------------------------

fn expect_lit(text: &Vec<char>, i: usize, lit: &str) -> (r: Option<usize>)
    ensures
        match r {
            Some(j) => spec_expect(text@, i as int, lit@) == Some(j as int) && i <= j
                <= text@.len(),
            None => spec_expect(text@, i as int, lit@) is None,
        },
{
    let l = str_to_chars(lit);
    let m = l.len();
    let n = text.len();
    if i > n || m > n - i {
        return None;
    }
    let mut k: usize = 0;
    while k < m
        invariant
            m == l@.len(),
            l@ == lit@,
            n == text@.len(),
            i + m <= n,
            k <= m,
            forall|q: int| 0 <= q < k ==> text@[i + q] == lit@[q],
        decreases m - k,
    {
        if text[i + k] != l[k] {
            proof {
                assert(text@.subrange(i as int, i + m)[k as int] == text@[i + k]);
            }
            return None;
        }
        k += 1;
    }
    proof {
        assert(text@.subrange(i as int, i + m) =~= lit@);
    }
    Some(i + m)
}

fn parse_string_body(text: &Vec<char>, i: usize) -> (r: Option<(Vec<char>, usize)>)
    ensures
        match r {
            Some(p) => spec_parse_string_body(text@, i as int) == Some((p.0@, p.1 as int)),
            None => spec_parse_string_body(text@, i as int) is None,
        },
    decreases text@.len() - i,
{
    if i >= text.len() {
        return None;
    }
    let c = text[i];
    if c == '"' {
        let v: Vec<char> = Vec::new();
        proof {
            assert(v@ =~= Seq::<char>::empty());
        }
        Some((v, i + 1))
    } else if c == '\\' {
        if i + 1 < text.len() {
            let c2 = text[i + 1];
            if c2 == '"' || c2 == '\\' {
                match parse_string_body(text, i + 2) {
                    None => None,
                    Some((t, j)) => {
                        let mut t = t;
                        let ghost t0 = t@;
                        t.insert(0, c2);
                        proof {
                            assert(t@ =~= seq![c2] + t0);
                        }
                        Some((t, j))
                    },
                }
            } else {
                None
            }
        } else {
            None
        }
    } else {
        match parse_string_body(text, i + 1) {
            None => None,
            Some((t, j)) => {
                let mut t = t;
                let ghost t0 = t@;
                t.insert(0, c);
                proof {
                    assert(t@ =~= seq![c] + t0);
                }
                Some((t, j))
            },
        }
    }
}

fn parse_string(text: &Vec<char>, i: usize) -> (r: Option<(Vec<char>, usize)>)
    ensures
        match r {
            Some(p) => spec_parse_string(text@, i as int) == Some((p.0@, p.1 as int)),
            None => spec_parse_string(text@, i as int) is None,
        },
{
    proof {
        assert("\""@ =~= seq!['"']) by {
            reveal_strlit("\"");
        }
    }
    match expect_lit(text, i, "\"") {
        None => None,
        Some(j) => parse_string_body(text, j),
    }
}

fn parse_opt_string(text: &Vec<char>, i: usize) -> (r: Option<(Option<String>, usize)>)
    ensures
        match r {
            Some(p) => spec_parse_opt_string(text@, i as int) == Some((p.0.deep_view(), p.1 as int)),
            None => spec_parse_opt_string(text@, i as int) is None,
        },
{
    proof {
        assert("null"@ =~= null_text()) by {
            reveal_strlit("null");
        }
    }
    match expect_lit(text, i, "null") {
        Some(j) => Some((None, j)),
        None => match parse_string(text, i) {
            None => None,
            Some((t, j)) => Some((Some(chars_to_string(&t)), j)),
        },
    }
}

fn parse_bool(text: &Vec<char>, i: usize) -> (r: Option<(bool, usize)>)
    ensures
        match r {
            Some(p) => spec_parse_bool(text@, i as int) == Some((p.0, p.1 as int)),
            None => spec_parse_bool(text@, i as int) is None,
        },
{
    proof {
        assert("true"@ =~= true_text()) by {
            reveal_strlit("true");
        }
        assert("false"@ =~= false_text()) by {
            reveal_strlit("false");
        }
    }
    match expect_lit(text, i, "true") {
        Some(j) => Some((true, j)),
        None => match expect_lit(text, i, "false") {
            Some(j) => Some((false, j)),
            None => None,
        },
    }
}

fn parse_opt_bool(text: &Vec<char>, i: usize) -> (r: Option<(Option<bool>, usize)>)
    ensures
        match r {
            Some(p) => spec_parse_opt_bool(text@, i as int) == Some((p.0, p.1 as int)),
            None => spec_parse_opt_bool(text@, i as int) is None,
        },
{
    proof {
        assert("null"@ =~= null_text()) by {
            reveal_strlit("null");
        }
    }
    match expect_lit(text, i, "null") {
        Some(j) => Some((None, j)),
        None => match parse_bool(text, i) {
            None => None,
            Some((b, j)) => Some((Some(b), j)),
        },
    }
}

fn is_digit_exec(c: char) -> (r: bool)
    ensures
        r == is_digit(c),
{
    c == '0' || c == '1' || c == '2' || c == '3' || c == '4' || c == '5' || c == '6' || c == '7'
        || c == '8' || c == '9'
}

fn digit_value(c: char) -> (r: Option<u32>)
    ensures
        match r {
            Some(d) => is_digit(c) && d == char_digit(c) && d < 10,
            None => !is_digit(c),
        },
{
    match c {
        '0' => Some(0),
        '1' => Some(1),
        '2' => Some(2),
        '3' => Some(3),
        '4' => Some(4),
        '5' => Some(5),
        '6' => Some(6),
        '7' => Some(7),
        '8' => Some(8),
        '9' => Some(9),
        _ => None,
    }
}

fn parse_u32(text: &Vec<char>, i: usize) -> (r: Option<(u32, usize)>)
    ensures
        match r {
            Some(p) => spec_parse_u32(text@, i as int) == Some((p.0, p.1 as int)),
            None => spec_parse_u32(text@, i as int) is None,
        },
{
    let n = text.len();
    if i >= n {
        return None;
    }
    let mut k: usize = i;
    while k < n && is_digit_exec(text[k])
        invariant
            i <= k <= n == text@.len(),
            digits_end(text@, i as int) == digits_end(text@, k as int),
            forall|q: int| i <= q < k ==> is_digit(#[trigger] text@[q]),
        decreases n - k,
    {
        k += 1;
    }
    let end = k;
    proof {
        assert(digits_end(text@, end as int) == end as int);
    }
    if end == i {
        return None;
    }
    if text[i] == '0' && end > i + 1 {
        return None;
    }
    let mut acc: u32 = 0;
    let mut over: bool = false;
    let mut k: usize = i;
    while k < end
        invariant
            i <= k <= end <= n == text@.len(),
            forall|q: int| i <= q < end ==> is_digit(#[trigger] text@[q]),
            !over ==> acc as int == digits_val(text@, i as int, k as int),
            over ==> digits_val(text@, i as int, k as int) > u32::MAX,
        decreases end - k,
    {
        let d = match digit_value(text[k]) {
            Some(d) => d,
            None => {
                proof {
                    assert(false);
                }
                0
            },
        };
        proof {
            assert(digits_val(text@, i as int, k + 1) == digits_val(text@, i as int, k as int) * 10
                + char_digit(text@[k as int]));
            assert(0 <= char_digit(text@[k as int]) <= 9);
        }
        if over {
            proof {
                assert(digits_val(text@, i as int, k as int) * 10 + char_digit(text@[k as int])
                    > u32::MAX) by (nonlinear_arith)
                    requires
                        digits_val(text@, i as int, k as int) > u32::MAX,
                        0 <= char_digit(text@[k as int]),
                ;
            }
        } else {
            match acc.checked_mul(10) {
                None => {
                    over = true;
                },
                Some(x) => {
                    match x.checked_add(d) {
                        None => {
                            over = true;
                        },
                        Some(y) => {
                            acc = y;
                        },
                    }
                },
            }
        }
        k += 1;
    }
    if over {
        return None;
    }
    Some((acc, end))
}

fn parse_field_str(text: &Vec<char>, i: usize, key: &str) -> (r: Option<(String, usize)>)
    ensures
        match r {
            Some(p) => spec_field_str(text@, i as int, key@) == Some((p.0@, p.1 as int)),
            None => spec_field_str(text@, i as int, key@) is None,
        },
{
    match expect_lit(text, i, key) {
        None => None,
        Some(j) => match parse_string(text, j) {
            None => None,
            Some((t, j2)) => Some((chars_to_string(&t), j2)),
        },
    }
}

fn parse_field_opt_str(text: &Vec<char>, i: usize, key: &str) -> (r: Option<
    (Option<String>, usize),
>)
    ensures
        match r {
            Some(p) => spec_field_opt_str(text@, i as int, key@) == Some(
                (p.0.deep_view(), p.1 as int),
            ),
            None => spec_field_opt_str(text@, i as int, key@) is None,
        },
{
    match expect_lit(text, i, key) {
        None => None,
        Some(j) => parse_opt_string(text, j),
    }
}

fn parse_field_u32(text: &Vec<char>, i: usize, key: &str) -> (r: Option<(u32, usize)>)
    ensures
        match r {
            Some(p) => spec_field_u32(text@, i as int, key@) == Some((p.0, p.1 as int)),
            None => spec_field_u32(text@, i as int, key@) is None,
        },
{
    match expect_lit(text, i, key) {
        None => None,
        Some(j) => parse_u32(text, j),
    }
}

fn parse_field_opt_bool(text: &Vec<char>, i: usize, key: &str) -> (r: Option<
    (Option<bool>, usize),
>)
    ensures
        match r {
            Some(p) => spec_field_opt_bool(text@, i as int, key@) == Some((p.0, p.1 as int)),
            None => spec_field_opt_bool(text@, i as int, key@) is None,
        },
{
    match expect_lit(text, i, key) {
        None => None,
        Some(j) => parse_opt_bool(text, j),
    }
}

#[verifier::rlimit(100)]
fn parse_employee(text: &Vec<char>, i: usize) -> (r: Option<(Employee, usize)>)
    ensures
        match r {
            Some(p) => spec_parse_employee(text@, i as int) == Some((p.0@, p.1 as int)),
            None => spec_parse_employee(text@, i as int) is None,
        },
{
    let (id, p1) = match parse_field_opt_str(text, i, "{\"id\": ") {
        None => {
            return None;
        },
        Some(x) => x,
    };
    let (first_name, p2) = match parse_field_str(text, p1, ", \"first_name\": ") {
        None => {
            return None;
        },
        Some(x) => x,
    };
    let (last_name, p3) = match parse_field_str(text, p2, ", \"last_name\": ") {
        None => {
            return None;
        },
        Some(x) => x,
    };
    let (personal_email, p4) = match parse_field_opt_str(text, p3, ", \"personal_email\": ") {
        None => {
            return None;
        },
        Some(x) => x,
    };
    let (work_email, p5) = match parse_field_opt_str(text, p4, ", \"work_email\": ") {
        None => {
            return None;
        },
        Some(x) => x,
    };
    let (age, p6) = match parse_field_u32(text, p5, ", \"age\": ") {
        None => {
            return None;
        },
        Some(x) => x,
    };
    let (diploma, p7) = match parse_field_str(text, p6, ", \"diploma\": ") {
        None => {
            return None;
        },
        Some(x) => x,
    };
    let (onboarded, p8) = match parse_field_opt_bool(text, p7, ", \"onboarded\": ") {
        None => {
            return None;
        },
        Some(x) => x,
    };
    let (handle, p9) = match parse_field_opt_str(text, p8, ", \"handle\": ") {
        None => {
            return None;
        },
        Some(x) => x,
    };
    let (password, p10) = match parse_field_opt_str(text, p9, ", \"password\": ") {
        None => {
            return None;
        },
        Some(x) => x,
    };
    let (secure_password, p11) = match parse_field_opt_bool(text, p10, ", \"secure_password\": ") {
        None => {
            return None;
        },
        Some(x) => x,
    };
    proof {
        assert("}"@ =~= seq!['}']) by {
            reveal_strlit("}");
        }
    }
    let j = match expect_lit(text, p11, "}") {
        None => {
            return None;
        },
        Some(x) => x,
    };
    let e = Employee {
        id,
        first_name,
        last_name,
        personal_email,
        work_email,
        age,
        diploma,
        onboarded,
        handle,
        password,
        secure_password,
    };
    Some((e, j))
}

fn parse_entry(text: &Vec<char>, i: usize) -> (r: Option<(Employee, usize)>)
    ensures
        match r {
            Some(p) => spec_parse_entry(text@, i as int) == Some((p.0@, p.1 as int)),
            None => spec_parse_entry(text@, i as int) is None,
        },
{
    proof {
        assert("  "@ =~= seq![' ', ' ']) by {
            reveal_strlit("  ");
        }
        assert(": "@ =~= seq![':', ' ']) by {
            reveal_strlit(": ");
        }
    }
    let p0 = match expect_lit(text, i, "  ") {
        None => {
            return None;
        },
        Some(x) => x,
    };
    let (key, p1) = match parse_string(text, p0) {
        None => {
            return None;
        },
        Some(x) => x,
    };
    let p2 = match expect_lit(text, p1, ": ") {
        None => {
            return None;
        },
        Some(x) => x,
    };
    let (e, j) = match parse_employee(text, p2) {
        None => {
            return None;
        },
        Some(x) => x,
    };
    let matches_key = match &e.id {
        Some(id) => {
            let ks = chars_to_string(&key);
            *id == ks
        },
        None => false,
    };
    if matches_key {
        Some((e, j))
    } else {
        None
    }
}

fn parse_entries(text: &Vec<char>, i: usize) -> (r: Option<(Vec<Employee>, usize)>)
    ensures
        match r {
            Some(p) => spec_parse_entries(text@, i as int) == Some((views_of(p.0@), p.1 as int)),
            None => spec_parse_entries(text@, i as int) is None,
        },
    decreases text@.len() - i,
{
    proof {
        assert(",\n"@ =~= seq![',', '\n']) by {
            reveal_strlit(",\n");
        }
    }
    match parse_entry(text, i) {
        None => None,
        Some((e, j)) => {
            proof {
                lemma_entry_adv(text@, i as int);
            }
            match expect_lit(text, j, ",\n") {
                None => {
                    let mut v: Vec<Employee> = Vec::new();
                    let ghost ev = e@;
                    v.push(e);
                    proof {
                        assert(views_of(v@) =~= seq![ev]);
                    }
                    Some((v, j))
                },
                Some(j2) => match parse_entries(text, j2) {
                    None => None,
                    Some((vs, j3)) => {
                        let mut vs = vs;
                        let ghost vs0 = vs@;
                        let ghost ev = e@;
                        vs.insert(0, e);
                        proof {
                            assert(views_of(vs@) =~= seq![ev] + views_of(vs0));
                        }
                        Some((vs, j3))
                    },
                },
            }
        },
    }
}

fn parse_store(text: &Vec<char>) -> (r: Option<Vec<Employee>>)
    ensures
        match r {
            Some(v) => spec_parse_store(text@) == Some(views_of(v@)),
            None => spec_parse_store(text@) is None,
        },
{
    if text.len() == 2 {
        if text[0] == '{' && text[1] == '}' {
            proof {
                assert(text@ =~= seq!['{', '}']);
            }
            let v: Vec<Employee> = Vec::new();
            proof {
                assert(views_of(v@) =~= Seq::<EmployeeView>::empty());
            }
            return Some(v);
        }
    }
    proof {
        assert(text@ != seq!['{', '}']);
        assert("{\n"@ =~= seq!['{', '\n']) by {
            reveal_strlit("{\n");
        }
        assert("\n}"@ =~= seq!['\n', '}']) by {
            reveal_strlit("\n}");
        }
    }
    let p0 = match expect_lit(text, 0, "{\n") {
        None => {
            return None;
        },
        Some(x) => x,
    };
    let (vs, p1) = match parse_entries(text, p0) {
        None => {
            return None;
        },
        Some(x) => x,
    };
    match expect_lit(text, p1, "\n}") {
        None => None,
        Some(j) => {
            if j == text.len() {
                Some(vs)
            } else {
                None
            }
        },
    }
}

fn is_ws_exec(c: char) -> (r: bool)
    ensures
        r == is_ws(c),
{
    c == ' ' || c == '\n' || c == '\r' || c == '\t'
}

/// Parse the record file; an all-whitespace file is an empty store, and
/// anything that is not the canonical shape is malformed.
pub fn parse_records(text: &Vec<char>) -> (r: Result<Vec<Employee>, StoreError>)
    ensures
        match r {
            Ok(v) => spec_parse_file(text@) == Some(views_of(v@)),
            Err(e) => e == StoreError::ParseError && spec_parse_file(text@) is None,
        },
{
    let n = text.len();
    let mut k: usize = 0;
    let mut ws: bool = true;
    while k < n && ws
        invariant
            k <= n == text@.len(),
            ws ==> forall|q: int| 0 <= q < k ==> is_ws(#[trigger] text@[q]),
            !ws ==> k < n && !is_ws(text@[k as int]),
        decreases n - k + (if ws { 1int } else { 0int }),
    {
        if is_ws_exec(text[k]) {
            k += 1;
        } else {
            ws = false;
        }
    }
    if ws {
        let v: Vec<Employee> = Vec::new();
        proof {
            assert(all_ws(text@));
            assert(views_of(v@) =~= Seq::<EmployeeView>::empty());
        }
        return Ok(v);
    }
    proof {
        assert(!all_ws(text@));
    }
    match parse_store(text) {
        Some(v) => Ok(v),
        None => Err(StoreError::ParseError),
    }
}

// ---------------------------------------------------------------------
// Round trip: parsing what the renderer wrote gives the records back.
// ---------------------------------------------------------------------

pub(crate) proof fn lemma_split(s: Seq<char>, p: int, end: int, a: Seq<char>, b: Seq<char>)
    requires
        0 <= p <= end <= s.len(),
        s.subrange(p, end) == a + b,
    ensures
        a.len() + b.len() == end - p,
        s.subrange(p, p + a.len() as int) == a,
        s.subrange(p + a.len() as int, end) == b,
{
    assert((a + b).len() == end - p);
    assert forall|q: int| 0 <= q < a.len() implies s.subrange(p, p + a.len() as int)[q] == a[q] by {
        assert(s.subrange(p, end)[q] == (a + b)[q]);
    }
    assert(s.subrange(p, p + a.len() as int) =~= a);
    assert forall|q: int| 0 <= q < b.len() implies s.subrange(p + a.len() as int, end)[q] == b[q] by {
        assert(s.subrange(p + a.len() as int, end)[q] == s[p + a.len() + q]);
        assert(s.subrange(p, end)[a.len() + q] == s[p + a.len() + q]);
        assert((a + b)[a.len() + q] == b[q]);
    }
    assert(s.subrange(p + a.len() as int, end) =~= b);
}

proof fn lemma_expect_at(s: Seq<char>, i: int, lit: Seq<char>)
    requires
        0 <= i,
        i + lit.len() <= s.len(),
        s.subrange(i, i + lit.len() as int) == lit,
    ensures
        spec_expect(s, i, lit) == Some(i + lit.len() as int),
{
}

proof fn lemma_string_body_complete(s: Seq<char>, i: int, x: Seq<char>)
    requires
        0 <= i,
        i + esc(x).len() + 1 <= s.len(),
        s.subrange(i, i + esc(x).len() + 1) == esc(x) + seq!['"'],
    ensures
        spec_parse_string_body(s, i) == Some((x, i + esc(x).len() + 1)),
    decreases x.len(),
{
    let t = esc(x) + seq!['"'];
    if x.len() == 0 {
        assert(t == seq!['"']);
        assert(s[i] == s.subrange(i, i + 1)[0]);
        assert(s[i] == '"');
    } else {
        let c = x[0];
        let x1 = x.subrange(1, x.len() as int);
        assert(esc(x) == esc_char(c) + esc(x1));
        assert(t =~= esc_char(c) + (esc(x1) + seq!['"']));
        lemma_split(s, i, i + esc(x).len() + 1, esc_char(c), esc(x1) + seq!['"']);
        if c == '"' || c == '\\' {
            assert(esc_char(c) == seq!['\\', c]);
            assert(s[i] == s.subrange(i, i + 2)[0]);
            assert(s[i + 1] == s.subrange(i, i + 2)[1]);
            assert(s[i] == '\\' && s[i + 1] == c);
            lemma_string_body_complete(s, i + 2, x1);
            assert(seq![c] + x1 =~= x);
        } else {
            assert(esc_char(c) == seq![c]);
            assert(s[i] == s.subrange(i, i + 1)[0]);
            assert(s[i] == c);
            lemma_string_body_complete(s, i + 1, x1);
            assert(seq![c] + x1 =~= x);
        }
    }
}

proof fn lemma_string_complete(s: Seq<char>, i: int, x: Seq<char>)
    requires
        0 <= i,
        i + quoted(x).len() <= s.len(),
        s.subrange(i, i + quoted(x).len() as int) == quoted(x),
    ensures
        spec_parse_string(s, i) == Some((x, i + quoted(x).len() as int)),
{
    assert(quoted(x) =~= seq!['"'] + (esc(x) + seq!['"']));
    lemma_split(s, i, i + quoted(x).len() as int, seq!['"'], esc(x) + seq!['"']);
    lemma_expect_at(s, i, seq!['"']);
    lemma_string_body_complete(s, i + 1, x);
}

proof fn lemma_opt_str_complete(s: Seq<char>, i: int, o: Option<Seq<char>>)
    requires
        0 <= i,
        i + opt_str_text(o).len() <= s.len(),
        s.subrange(i, i + opt_str_text(o).len() as int) == opt_str_text(o),
    ensures
        spec_parse_opt_string(s, i) == Some((o, i + opt_str_text(o).len() as int)),
{
    match o {
        None => {
            lemma_expect_at(s, i, null_text());
        },
        Some(x) => {
            assert(s[i] == s.subrange(i, i + quoted(x).len() as int)[0]);
            assert(s[i] == '"');
            if spec_expect(s, i, null_text()) is Some {
                assert(s.subrange(i, i + 4) == null_text());
                assert(s[i] == s.subrange(i, i + 4)[0]);
                assert(false);
            }
            lemma_string_complete(s, i, x);
        },
    }
}

proof fn lemma_bool_complete(s: Seq<char>, i: int, b: bool)
    requires
        0 <= i,
        i + bool_text(b).len() <= s.len(),
        s.subrange(i, i + bool_text(b).len() as int) == bool_text(b),
    ensures
        spec_parse_bool(s, i) == Some((b, i + bool_text(b).len() as int)),
{
    if b {
        lemma_expect_at(s, i, true_text());
    } else {
        assert(s[i] == s.subrange(i, i + 5)[0]);
        assert(s[i] == 'f');
        if spec_expect(s, i, true_text()) is Some {
            assert(s[i] == s.subrange(i, i + 4)[0]);
            assert(false);
        }
        lemma_expect_at(s, i, false_text());
    }
}

proof fn lemma_opt_bool_complete(s: Seq<char>, i: int, o: Option<bool>)
    requires
        0 <= i,
        i + opt_bool_text(o).len() <= s.len(),
        s.subrange(i, i + opt_bool_text(o).len() as int) == opt_bool_text(o),
    ensures
        spec_parse_opt_bool(s, i) == Some((o, i + opt_bool_text(o).len() as int)),
{
    match o {
        None => {
            lemma_expect_at(s, i, null_text());
        },
        Some(b) => {
            assert(s[i] == s.subrange(i, i + bool_text(b).len() as int)[0]);
            if spec_expect(s, i, null_text()) is Some {
                assert(s[i] == s.subrange(i, i + 4)[0]);
                assert(false);
            }
            lemma_bool_complete(s, i, b);
        },
    }
}

pub(crate) proof fn lemma_dec_text_digits(n: int)
    requires
        n >= 0,
    ensures
        dec_text(n).len() >= 1,
        forall|q: int| 0 <= q < dec_text(n).len() ==> is_digit(#[trigger] dec_text(n)[q]),
        n >= 1 ==> dec_text(n)[0] != '0',
        n == 0 ==> dec_text(n) == seq!['0'],
    decreases n,
{
    if n >= 10 {
        lemma_dec_text_digits(n / 10);
    }
}

proof fn lemma_digits_run(s: Seq<char>, i: int, j: int)
    requires
        0 <= i <= j <= s.len(),
        forall|q: int| i <= q < j ==> is_digit(#[trigger] s[q]),
        j == s.len() || !is_digit(s[j]),
    ensures
        digits_end(s, i) == j,
    decreases j - i,
{
    if i < j {
        lemma_digits_run(s, i + 1, j);
    }
}

pub(crate) proof fn lemma_digits_val_of(s: Seq<char>, i: int, n: int)
    requires
        n >= 0,
        0 <= i,
        i + dec_text(n).len() <= s.len(),
        s.subrange(i, i + dec_text(n).len() as int) == dec_text(n),
    ensures
        digits_val(s, i, i + dec_text(n).len() as int) == n,
    decreases n,
{
    let l = dec_text(n).len() as int;
    if n < 10 {
        assert(s[i] == s.subrange(i, i + 1)[0]);
        assert(s[i] == digit_char(n));
        assert(digits_val(s, i, i + 1) == digits_val(s, i, i) * 10 + char_digit(s[i]));
        assert(char_digit(digit_char(n)) == n);
    } else {
        let m = n / 10;
        assert(dec_text(n) == dec_text(m).push(digit_char(n % 10)));
        assert(dec_text(n) =~= dec_text(m) + seq![digit_char(n % 10)]);
        lemma_split(s, i, i + l, dec_text(m), seq![digit_char(n % 10)]);
        lemma_digits_val_of(s, i, m);
        assert(s[i + l - 1] == s.subrange(i + l - 1, i + l)[0]);
        assert(s[i + l - 1] == digit_char(n % 10));
        assert(char_digit(digit_char(n % 10)) == n % 10);
        assert(digits_val(s, i, i + l) == digits_val(s, i, i + l - 1) * 10 + char_digit(
            s[i + l - 1],
        ));
        assert(m * 10 + n % 10 == n);
    }
}

proof fn lemma_u32_complete(s: Seq<char>, i: int, n: u32)
    requires
        0 <= i,
        i + dec_text(n as int).len() <= s.len(),
        s.subrange(i, i + dec_text(n as int).len() as int) == dec_text(n as int),
        i + dec_text(n as int).len() == s.len() || !is_digit(s[i + dec_text(n as int).len() as int]),
    ensures
        spec_parse_u32(s, i) == Some((n, i + dec_text(n as int).len() as int)),
{
    let l = dec_text(n as int).len() as int;
    lemma_dec_text_digits(n as int);
    assert forall|q: int| i <= q < i + l implies is_digit(#[trigger] s[q]) by {
        assert(s[q] == s.subrange(i, i + l)[q - i]);
    }
    lemma_digits_run(s, i, i + l);
    lemma_digits_val_of(s, i, n as int);
    assert(s[i] == s.subrange(i, i + l)[0]);
    if n >= 1 {
        assert(s[i] != '0');
    } else {
        assert(l == 1);
    }
}

proof fn lemma_field_str_complete(
    s: Seq<char>,
    i: int,
    k: Seq<char>,
    x: Seq<char>,
    rest: Seq<char>,
    end: int,
)
    requires
        0 <= i <= end <= s.len(),
        s.subrange(i, end) == fld(k, quoted(x), rest),
    ensures
        ({
            let p = i + k.len() + quoted(x).len();
            &&& spec_field_str(s, i, k) == Some((x, p as int))
            &&& i <= p <= end
            &&& s.subrange(p as int, end) == rest
            &&& end - p == rest.len()
        }),
{
    lemma_split(s, i, end, k, quoted(x) + rest);
    lemma_expect_at(s, i, k);
    lemma_split(s, i + k.len() as int, end, quoted(x), rest);
    lemma_string_complete(s, i + k.len() as int, x);
}

proof fn lemma_field_opt_str_complete(
    s: Seq<char>,
    i: int,
    k: Seq<char>,
    o: Option<Seq<char>>,
    rest: Seq<char>,
    end: int,
)
    requires
        0 <= i <= end <= s.len(),
        s.subrange(i, end) == fld(k, opt_str_text(o), rest),
    ensures
        ({
            let p = i + k.len() + opt_str_text(o).len();
            &&& spec_field_opt_str(s, i, k) == Some((o, p as int))
            &&& i <= p <= end
            &&& s.subrange(p as int, end) == rest
            &&& end - p == rest.len()
        }),
{
    lemma_split(s, i, end, k, opt_str_text(o) + rest);
    lemma_expect_at(s, i, k);
    lemma_split(s, i + k.len() as int, end, opt_str_text(o), rest);
    lemma_opt_str_complete(s, i + k.len() as int, o);
}

proof fn lemma_field_opt_bool_complete(
    s: Seq<char>,
    i: int,
    k: Seq<char>,
    o: Option<bool>,
    rest: Seq<char>,
    end: int,
)
    requires
        0 <= i <= end <= s.len(),
        s.subrange(i, end) == fld(k, opt_bool_text(o), rest),
    ensures
        ({
            let p = i + k.len() + opt_bool_text(o).len();
            &&& spec_field_opt_bool(s, i, k) == Some((o, p as int))
            &&& i <= p <= end
            &&& s.subrange(p as int, end) == rest
            &&& end - p == rest.len()
        }),
{
    lemma_split(s, i, end, k, opt_bool_text(o) + rest);
    lemma_expect_at(s, i, k);
    lemma_split(s, i + k.len() as int, end, opt_bool_text(o), rest);
    lemma_opt_bool_complete(s, i + k.len() as int, o);
}

proof fn lemma_field_u32_complete(
    s: Seq<char>,
    i: int,
    k: Seq<char>,
    n: u32,
    rest: Seq<char>,
    end: int,
)
    requires
        0 <= i <= end <= s.len(),
        s.subrange(i, end) == fld(k, dec_text(n as int), rest),
        rest.len() >= 1,
        !is_digit(rest[0]),
    ensures
        ({
            let p = i + k.len() + dec_text(n as int).len();
            &&& spec_field_u32(s, i, k) == Some((n, p as int))
            &&& i <= p <= end
            &&& s.subrange(p as int, end) == rest
            &&& end - p == rest.len()
        }),
{
    lemma_split(s, i, end, k, dec_text(n as int) + rest);
    lemma_expect_at(s, i, k);
    lemma_split(s, i + k.len() as int, end, dec_text(n as int), rest);
    let p = i + k.len() + dec_text(n as int).len();
    assert(s[p as int] == s.subrange(p as int, end)[0]);
    assert(!is_digit(s[p as int]));
    lemma_u32_complete(s, i + k.len() as int, n);
}

#[verifier::rlimit(100)]
#[verifier::spinoff_prover]
proof fn lemma_employee_complete(s: Seq<char>, i: int, e: EmployeeView, end: int)
    requires
        0 <= i <= end <= s.len(),
        s.subrange(i, end) == employee_text(e),
        end - i == employee_text(e).len(),
    ensures
        spec_parse_employee(s, i) == Some((e, end)),
{
    let r11 = fld(k_secure_password(), opt_bool_text(e.secure_password), seq!['}']);
    let r10 = fld(k_password(), opt_str_text(e.password), r11);
    let r9 = fld(k_handle(), opt_str_text(e.handle), r10);
    let r8 = fld(k_onboarded(), opt_bool_text(e.onboarded), r9);
    let r7 = fld(k_diploma(), quoted(e.diploma), r8);
    let r6 = fld(k_age(), dec_text(e.age as int), r7);
    let r5 = fld(k_work_email(), opt_str_text(e.work_email), r6);
    let r4 = fld(k_personal_email(), opt_str_text(e.personal_email), r5);
    let r3 = fld(k_last_name(), quoted(e.last_name), r4);
    let r2 = fld(k_first_name(), quoted(e.first_name), r3);
    assert(employee_text(e) == fld(k_id(), opt_str_text(e.id), r2));
    lemma_field_opt_str_complete(s, i, k_id(), e.id, r2, end);
    let p1 = i + k_id().len() + opt_str_text(e.id).len();
    lemma_field_str_complete(s, p1, k_first_name(), e.first_name, r3, end);
    let p2 = p1 + k_first_name().len() + quoted(e.first_name).len();
    lemma_field_str_complete(s, p2, k_last_name(), e.last_name, r4, end);
    let p3 = p2 + k_last_name().len() + quoted(e.last_name).len();
    lemma_field_opt_str_complete(s, p3, k_personal_email(), e.personal_email, r5, end);
    let p4 = p3 + k_personal_email().len() + opt_str_text(e.personal_email).len();
    lemma_field_opt_str_complete(s, p4, k_work_email(), e.work_email, r6, end);
    let p5 = p4 + k_work_email().len() + opt_str_text(e.work_email).len();
    assert(r7.len() >= 1 && !is_digit(r7[0])) by {
        reveal_strlit(", \"diploma\": ");
        assert(k_diploma().len() == 13);
        assert(r7[0] == k_diploma()[0]);
        assert(k_diploma()[0] == ',');
    }
    lemma_field_u32_complete(s, p5, k_age(), e.age, r7, end);
    let p6 = p5 + k_age().len() + dec_text(e.age as int).len();
    lemma_field_str_complete(s, p6, k_diploma(), e.diploma, r8, end);
    let p7 = p6 + k_diploma().len() + quoted(e.diploma).len();
    lemma_field_opt_bool_complete(s, p7, k_onboarded(), e.onboarded, r9, end);
    let p8 = p7 + k_onboarded().len() + opt_bool_text(e.onboarded).len();
    lemma_field_opt_str_complete(s, p8, k_handle(), e.handle, r10, end);
    let p9 = p8 + k_handle().len() + opt_str_text(e.handle).len();
    lemma_field_opt_str_complete(s, p9, k_password(), e.password, r11, end);
    let p10 = p9 + k_password().len() + opt_str_text(e.password).len();
    lemma_field_opt_bool_complete(s, p10, k_secure_password(), e.secure_password, seq!['}'], end);
    let p11 = p10 + k_secure_password().len() + opt_bool_text(e.secure_password).len();
    lemma_expect_at(s, p11, seq!['}']);
    assert(p11 + 1 == end);
}

#[verifier::rlimit(100)]
#[verifier::spinoff_prover]
proof fn lemma_entry_complete(s: Seq<char>, i: int, e: EmployeeView, end: int)
    requires
        e.id is Some,
        0 <= i <= end <= s.len(),
        s.subrange(i, end) == entry_text(e),
        end - i == entry_text(e).len(),
    ensures
        spec_parse_entry(s, i) == Some((e, end)),
{
    let key = e.id->0;
    assert(entry_text(e) == seq![' ', ' '] + (quoted(key) + (seq![':', ' '] + employee_text(e))));
    lemma_split(s, i, end, seq![' ', ' '], quoted(key) + (seq![':', ' '] + employee_text(e)));
    lemma_expect_at(s, i, seq![' ', ' ']);
    let p0 = i + 2;
    lemma_split(s, p0, end, quoted(key), seq![':', ' '] + employee_text(e));
    lemma_string_complete(s, p0, key);
    let p1 = p0 + quoted(key).len();
    lemma_split(s, p1 as int, end, seq![':', ' '], employee_text(e));
    lemma_expect_at(s, p1 as int, seq![':', ' ']);
    let p2 = p1 + 2;
    lemma_employee_complete(s, p2 as int, e, end);
}

#[verifier::rlimit(100)]
#[verifier::spinoff_prover]
proof fn lemma_entries_complete(s: Seq<char>, i: int, es: Seq<EmployeeView>, end: int)
    requires
        es.len() >= 1,
        ids_present(es),
        0 <= i <= end <= s.len(),
        s.subrange(i, end) == entries_text(es),
        end - i == entries_text(es).len(),
        end + 2 > s.len() || s[end] != ',',
    ensures
        spec_parse_entries(s, i) == Some((es, end)),
    decreases es.len(),
{
    if es.len() == 1 {
        assert(entries_text(es) == entry_text(es[0]));
        lemma_entry_complete(s, i, es[0], end);
        if spec_expect(s, end, seq![',', '\n']) is Some {
            assert(s.subrange(end, end + 2) == seq![',', '\n']);
            assert(s[end] == s.subrange(end, end + 2)[0]);
            assert(false);
        }
        assert(seq![es[0]] =~= es);
    } else {
        let rest = es.subrange(1, es.len() as int);
        assert(ids_present(rest)) by {
            assert(forall|q: int| 0 <= q < rest.len() ==> rest[q] == es[q + 1]);
        }
        assert(entries_text(es) == entry_text(es[0]) + (seq![',', '\n'] + entries_text(rest)));
        lemma_split(s, i, end, entry_text(es[0]), seq![',', '\n'] + entries_text(rest));
        let p = i + entry_text(es[0]).len();
        lemma_entry_complete(s, i, es[0], p as int);
        lemma_split(s, p as int, end, seq![',', '\n'], entries_text(rest));
        lemma_expect_at(s, p as int, seq![',', '\n']);
        lemma_entries_complete(s, p + 2, rest, end);
        assert(seq![es[0]] + rest =~= es);
    }
}

/// Round trip of the record file: parsing what the renderer wrote gives
/// exactly the records that were written, provided every record carries
/// an identifier.
#[verifier::rlimit(100)]
#[verifier::spinoff_prover]
pub proof fn lemma_store_round_trip(es: Seq<EmployeeView>)
    requires
        ids_present(es),
    ensures
        spec_parse_file(store_text(es)) == Some(es),
{
    let s = store_text(es);
    if es.len() == 0 {
        assert(s == seq!['{', '}']);
        assert(!is_ws(s[0]));
        assert(!all_ws(s));
    } else {
        assert(s == seq!['{', '\n'] + (entries_text(es) + seq!['\n', '}']));
        assert(s[0] == '{');
        assert(!is_ws(s[0]));
        assert(!all_ws(s));
        let el = entries_text(es).len() as int;
        assert(entries_text(es).len() >= 1) by {
            if es.len() == 1 {
                assert(entries_text(es) == entry_text(es[0]));
            }
            assert(entry_text(es[0]).len() >= 2);
        }
        assert(s.len() == el + 4);
        if s == seq!['{', '}'] {
            assert(s.len() == 2);
            assert(false);
        }
        assert(s.subrange(0, s.len() as int) =~= s);
        lemma_split(s, 0, s.len() as int, seq!['{', '\n'], entries_text(es) + seq!['\n', '}']);
        lemma_expect_at(s, 0, seq!['{', '\n']);
        lemma_split(s, 2, s.len() as int, entries_text(es), seq!['\n', '}']);
        let end = 2 + el;
        assert(s[end] == s.subrange(end, s.len() as int)[0]);
        assert(s[end] == '\n');
        lemma_entries_complete(s, 2, es, end);
        lemma_expect_at(s, end, seq!['\n', '}']);
    }
}

// ---------------------------------------------------------------------
// String-level interface.
// ---------------------------------------------------------------------

/// Render the records as the text of the record file.
pub fn render_store_file(records: &Vec<Employee>) -> (r: String)
    requires
        ids_present(views_of(records@)),
    ensures
        r@ == store_text(views_of(records@)),
{
    let out = render_records(records);
    chars_to_string(&out)
}

/// Parse the text of the record file back into records.
pub fn parse_store_file(text: &str) -> (r: Result<Vec<Employee>, StoreError>)
    ensures
        match r {
            Ok(v) => spec_parse_file(text@) == Some(views_of(v@)),
            Err(e) => e == StoreError::ParseError && spec_parse_file(text@) is None,
        },
{
    let chars = str_to_chars(text);
    parse_records(&chars)
}

// ---------------------------------------------------------------------
// The admin file: same shape, two-field records.
// ---------------------------------------------------------------------

pub open spec fn spec_parse_admin(s: Seq<char>, i: int) -> Option<(AdminView, int)> {
    match spec_field_str(s, i, k_id()) {
        None => None,
        Some((id, p1)) => match spec_field_opt_str(s, p1, k_password()) {
            None => None,
            Some((password, p2)) => match spec_expect(s, p2, seq!['}']) {
                None => None,
                Some(j) => Some((AdminView { id, password }, j)),
            },
        },
    }
}

pub open spec fn spec_parse_admin_entry(s: Seq<char>, i: int) -> Option<(AdminView, int)> {
    match spec_expect(s, i, seq![' ', ' ']) {
        None => None,
        Some(p0) => match spec_parse_string(s, p0) {
            None => None,
            Some((key, p1)) => match spec_expect(s, p1, seq![':', ' ']) {
                None => None,
                Some(p2) => match spec_parse_admin(s, p2) {
                    None => None,
                    Some((a, j)) => if a.id == key {
                        Some((a, j))
                    } else {
                        None
                    },
                },
            },
        },
    }
}

pub broadcast proof fn lemma_admin_adv(s: Seq<char>, i: int)
    ensures
        (#[trigger] spec_parse_admin(s, i)) matches Some(r) ==> i < r.1 <= s.len(),
{
    broadcast use lemma_string_adv, lemma_opt_string_adv;

}

pub broadcast proof fn lemma_admin_entry_adv(s: Seq<char>, i: int)
    ensures
        (#[trigger] spec_parse_admin_entry(s, i)) matches Some(r) ==> i < r.1 <= s.len(),
{
    broadcast use lemma_string_adv, lemma_admin_adv;

}

pub open spec fn spec_parse_admin_entries(s: Seq<char>, i: int) -> Option<(Seq<AdminView>, int)>
    decreases s.len() - i,
    via spec_parse_admin_entries_decreases
{
    match spec_parse_admin_entry(s, i) {
        None => None,
        Some((a, j)) => match spec_expect(s, j, seq![',', '\n']) {
            None => Some((seq![a], j)),
            Some(j2) => match spec_parse_admin_entries(s, j2) {
                None => None,
                Some((rest, j3)) => Some((seq![a] + rest, j3)),
            },
        },
    }
}

#[via_fn]
proof fn spec_parse_admin_entries_decreases(s: Seq<char>, i: int) {
    broadcast use lemma_admin_entry_adv;

}

pub open spec fn spec_parse_admin_store(s: Seq<char>) -> Option<Seq<AdminView>> {
    if s == seq!['{', '}'] {
        Some(Seq::empty())
    } else {
        match spec_expect(s, 0, seq!['{', '\n']) {
            None => None,
            Some(p0) => match spec_parse_admin_entries(s, p0) {
                None => None,
                Some((es, p1)) => if spec_expect(s, p1, seq!['\n', '}']) == Some(s.len() as int) {
                    Some(es)
                } else {
                    None
                },
            },
        }
    }
}

pub open spec fn spec_parse_admin_file(s: Seq<char>) -> Option<Seq<AdminView>> {
    if all_ws(s) {
        Some(Seq::empty())
    } else {
        spec_parse_admin_store(s)
    }
}

fn append_admin(out: &mut Vec<char>, a: &Admin)
    ensures
        final(out)@ == old(out)@ + admin_text(a@),
{
    append_str(out, "{\"id\": ");
    append_quoted(out, &a.id);
    let ghost o1 = out@;
    append_str(out, ", \"password\": ");
    append_opt_str(out, &a.password);
    out.push('}');
    proof {
        let v = a@;
        let r2 = fld(k_password(), opt_str_text(v.password), seq!['}']);
        assert(out@ =~= o1 + r2);
        assert(o1 + r2 =~= old(out)@ + fld(k_id(), quoted(v.id), r2));
    }
}

fn append_admin_entry(out: &mut Vec<char>, a: &Admin)
    ensures
        final(out)@ == old(out)@ + admin_entry_text(a@),
{
    append_str(out, "  ");
    append_quoted(out, &a.id);
    append_str(out, ": ");
    append_admin(out, a);
    proof {
        assert("  "@ =~= seq![' ', ' ']) by {
            reveal_strlit("  ");
        }
        assert(": "@ =~= seq![':', ' ']) by {
            reveal_strlit(": ");
        }
        assert(out@ =~= old(out)@ + admin_entry_text(a@));
    }
}

proof fn lemma_admin_entries_push(s: Seq<AdminView>, a: AdminView)
    requires
        s.len() >= 1,
    ensures
        admin_entries_text(s.push(a)) == admin_entries_text(s) + seq![',', '\n']
            + admin_entry_text(a),
    decreases s.len(),
{
    let t = s.push(a);
    assert(t[0] == s[0]);
    assert(t.subrange(1, t.len() as int) =~= s.subrange(1, s.len() as int).push(a));
    if s.len() == 1 {
        assert(t.subrange(1, 2) =~= seq![a]);
        assert(admin_entries_text(t) == admin_entry_text(t[0]) + (seq![',', '\n']
            + admin_entries_text(t.subrange(1, 2))));
        assert(admin_entries_text(t.subrange(1, 2)) == admin_entry_text(a));
        assert(admin_entries_text(t) =~= admin_entries_text(s) + seq![',', '\n']
            + admin_entry_text(a));
    } else {
        let u = s.subrange(1, s.len() as int);
        lemma_admin_entries_push(u, a);
        assert(admin_entries_text(t) == admin_entry_text(t[0]) + (seq![',', '\n']
            + admin_entries_text(t.subrange(1, t.len() as int))));
        assert(admin_entries_text(t.subrange(1, t.len() as int)) == admin_entries_text(u) + seq![
            ',',
            '\n',
        ] + admin_entry_text(a));
        assert(admin_entries_text(s) == admin_entry_text(s[0]) + (seq![',', '\n']
            + admin_entries_text(u)));
        assert(admin_entries_text(t) =~= admin_entries_text(s) + seq![',', '\n']
            + admin_entry_text(a));
    }
}

/// Render the admin records as the canonical admin file.
pub fn render_admin_records(admins: &Vec<Admin>) -> (out: Vec<char>)
    ensures
        out@ == admin_store_text(admin_views_of(admins@)),
{
    let ghost v = admin_views_of(admins@);
    let n = admins.len();
    let mut out: Vec<char> = Vec::new();
    if n == 0 {
        out.push('{');
        out.push('}');
        proof {
            assert(out@ =~= admin_store_text(v));
        }
        return out;
    }
    out.push('{');
    out.push('\n');
    let mut i: usize = 0;
    while i < n
        invariant
            1 <= n == admins.len(),
            v == admin_views_of(admins@),
            i <= n,
            i == 0 ==> out@ == seq!['{', '\n'],
            i >= 1 ==> out@ == seq!['{', '\n'] + admin_entries_text(v.take(i as int)),
        decreases n - i,
    {
        if i > 0 {
            out.push(',');
            out.push('\n');
        }
        append_admin_entry(&mut out, &admins[i]);
        proof {
            if i == 0 {
                assert(v.take(1) =~= seq![v[0]]);
                assert(out@ =~= seq!['{', '\n'] + admin_entries_text(v.take(1)));
            } else {
                lemma_admin_entries_push(v.take(i as int), v[i as int]);
                assert(v.take(i + 1) =~= v.take(i as int).push(v[i as int]));
                assert(out@ =~= seq!['{', '\n'] + admin_entries_text(v.take(i + 1)));
            }
        }
        i += 1;
    }
    out.push('\n');
    out.push('}');
    proof {
        assert(v.take(n as int) =~= v);
        assert(out@ =~= admin_store_text(v));
    }
    out
}

fn parse_admin(text: &Vec<char>, i: usize) -> (r: Option<(Admin, usize)>)
    ensures
        match r {
            Some(p) => spec_parse_admin(text@, i as int) == Some((p.0@, p.1 as int)),
            None => spec_parse_admin(text@, i as int) is None,
        },
{
    let (id, p1) = match parse_field_str(text, i, "{\"id\": ") {
        None => {
            return None;
        },
        Some(x) => x,
    };
    let (password, p2) = match parse_field_opt_str(text, p1, ", \"password\": ") {
        None => {
            return None;
        },
        Some(x) => x,
    };
    proof {
        assert("}"@ =~= seq!['}']) by {
            reveal_strlit("}");
        }
    }
    let j = match expect_lit(text, p2, "}") {
        None => {
            return None;
        },
        Some(x) => x,
    };
    Some((Admin { id, password }, j))
}

fn parse_admin_entry(text: &Vec<char>, i: usize) -> (r: Option<(Admin, usize)>)
    ensures
        match r {
            Some(p) => spec_parse_admin_entry(text@, i as int) == Some((p.0@, p.1 as int)),
            None => spec_parse_admin_entry(text@, i as int) is None,
        },
{
    proof {
        assert("  "@ =~= seq![' ', ' ']) by {
            reveal_strlit("  ");
        }
        assert(": "@ =~= seq![':', ' ']) by {
            reveal_strlit(": ");
        }
    }
    let p0 = match expect_lit(text, i, "  ") {
        None => {
            return None;
        },
        Some(x) => x,
    };
    let (key, p1) = match parse_string(text, p0) {
        None => {
            return None;
        },
        Some(x) => x,
    };
    let p2 = match expect_lit(text, p1, ": ") {
        None => {
            return None;
        },
        Some(x) => x,
    };
    let (a, j) = match parse_admin(text, p2) {
        None => {
            return None;
        },
        Some(x) => x,
    };
    let ks = chars_to_string(&key);
    if a.id == ks {
        Some((a, j))
    } else {
        None
    }
}

fn parse_admin_entries(text: &Vec<char>, i: usize) -> (r: Option<(Vec<Admin>, usize)>)
    ensures
        match r {
            Some(p) => spec_parse_admin_entries(text@, i as int) == Some(
                (admin_views_of(p.0@), p.1 as int),
            ),
            None => spec_parse_admin_entries(text@, i as int) is None,
        },
    decreases text@.len() - i,
{
    proof {
        assert(",\n"@ =~= seq![',', '\n']) by {
            reveal_strlit(",\n");
        }
    }
    match parse_admin_entry(text, i) {
        None => None,
        Some((a, j)) => {
            proof {
                lemma_admin_entry_adv(text@, i as int);
            }
            match expect_lit(text, j, ",\n") {
                None => {
                    let mut v: Vec<Admin> = Vec::new();
                    let ghost av = a@;
                    v.push(a);
                    proof {
                        assert(admin_views_of(v@) =~= seq![av]);
                    }
                    Some((v, j))
                },
                Some(j2) => match parse_admin_entries(text, j2) {
                    None => None,
                    Some((vs, j3)) => {
                        let mut vs = vs;
                        let ghost vs0 = vs@;
                        let ghost av = a@;
                        vs.insert(0, a);
                        proof {
                            assert(admin_views_of(vs@) =~= seq![av] + admin_views_of(vs0));
                        }
                        Some((vs, j3))
                    },
                },
            }
        },
    }
}

fn parse_admin_store(text: &Vec<char>) -> (r: Option<Vec<Admin>>)
    ensures
        match r {
            Some(v) => spec_parse_admin_store(text@) == Some(admin_views_of(v@)),
            None => spec_parse_admin_store(text@) is None,
        },
{
    if text.len() == 2 {
        if text[0] == '{' && text[1] == '}' {
            proof {
                assert(text@ =~= seq!['{', '}']);
            }
            let v: Vec<Admin> = Vec::new();
            proof {
                assert(admin_views_of(v@) =~= Seq::<AdminView>::empty());
            }
            return Some(v);
        }
    }
    proof {
        assert(text@ != seq!['{', '}']);
        assert("{\n"@ =~= seq!['{', '\n']) by {
            reveal_strlit("{\n");
        }
        assert("\n}"@ =~= seq!['\n', '}']) by {
            reveal_strlit("\n}");
        }
    }
    let p0 = match expect_lit(text, 0, "{\n") {
        None => {
            return None;
        },
        Some(x) => x,
    };
    let (vs, p1) = match parse_admin_entries(text, p0) {
        None => {
            return None;
        },
        Some(x) => x,
    };
    match expect_lit(text, p1, "\n}") {
        None => None,
        Some(j) => {
            if j == text.len() {
                Some(vs)
            } else {
                None
            }
        },
    }
}

/// Parse the admin file; an all-whitespace file is an empty store.
pub fn parse_admin_records(text: &Vec<char>) -> (r: Result<Vec<Admin>, StoreError>)
    ensures
        match r {
            Ok(v) => spec_parse_admin_file(text@) == Some(admin_views_of(v@)),
            Err(e) => e == StoreError::ParseError && spec_parse_admin_file(text@) is None,
        },
{
    let n = text.len();
    let mut k: usize = 0;
    let mut ws: bool = true;
    while k < n && ws
        invariant
            k <= n == text@.len(),
            ws ==> forall|q: int| 0 <= q < k ==> is_ws(#[trigger] text@[q]),
            !ws ==> k < n && !is_ws(text@[k as int]),
        decreases n - k + (if ws { 1int } else { 0int }),
    {
        if is_ws_exec(text[k]) {
            k += 1;
        } else {
            ws = false;
        }
    }
    if ws {
        let v: Vec<Admin> = Vec::new();
        proof {
            assert(all_ws(text@));
            assert(admin_views_of(v@) =~= Seq::<AdminView>::empty());
        }
        return Ok(v);
    }
    proof {
        assert(!all_ws(text@));
    }
    match parse_admin_store(text) {
        Some(v) => Ok(v),
        None => Err(StoreError::ParseError),
    }
}

#[verifier::rlimit(100)]
#[verifier::spinoff_prover]
proof fn lemma_admin_complete(s: Seq<char>, i: int, a: AdminView, end: int)
    requires
        0 <= i <= end <= s.len(),
        s.subrange(i, end) == admin_text(a),
        end - i == admin_text(a).len(),
    ensures
        spec_parse_admin(s, i) == Some((a, end)),
{
    let r2 = fld(k_password(), opt_str_text(a.password), seq!['}']);
    assert(admin_text(a) == fld(k_id(), quoted(a.id), r2));
    lemma_field_str_complete(s, i, k_id(), a.id, r2, end);
    let p1 = i + k_id().len() + quoted(a.id).len();
    lemma_field_opt_str_complete(s, p1, k_password(), a.password, seq!['}'], end);
    let p2 = p1 + k_password().len() + opt_str_text(a.password).len();
    lemma_expect_at(s, p2, seq!['}']);
    assert(p2 + 1 == end);
}

#[verifier::rlimit(100)]
#[verifier::spinoff_prover]
proof fn lemma_admin_entry_complete(s: Seq<char>, i: int, a: AdminView, end: int)
    requires
        0 <= i <= end <= s.len(),
        s.subrange(i, end) == admin_entry_text(a),
        end - i == admin_entry_text(a).len(),
    ensures
        spec_parse_admin_entry(s, i) == Some((a, end)),
{
    let key = a.id;
    assert(admin_entry_text(a) == seq![' ', ' '] + (quoted(key) + (seq![':', ' '] + admin_text(
        a,
    ))));
    lemma_split(s, i, end, seq![' ', ' '], quoted(key) + (seq![':', ' '] + admin_text(a)));
    lemma_expect_at(s, i, seq![' ', ' ']);
    let p0 = i + 2;
    lemma_split(s, p0, end, quoted(key), seq![':', ' '] + admin_text(a));
    lemma_string_complete(s, p0, key);
    let p1 = p0 + quoted(key).len();
    lemma_split(s, p1 as int, end, seq![':', ' '], admin_text(a));
    lemma_expect_at(s, p1 as int, seq![':', ' ']);
    let p2 = p1 + 2;
    lemma_admin_complete(s, p2 as int, a, end);
}

#[verifier::rlimit(100)]
#[verifier::spinoff_prover]
proof fn lemma_admin_entries_complete(s: Seq<char>, i: int, es: Seq<AdminView>, end: int)
    requires
        es.len() >= 1,
        0 <= i <= end <= s.len(),
        s.subrange(i, end) == admin_entries_text(es),
        end - i == admin_entries_text(es).len(),
        end + 2 > s.len() || s[end] != ',',
    ensures
        spec_parse_admin_entries(s, i) == Some((es, end)),
    decreases es.len(),
{
    if es.len() == 1 {
        assert(admin_entries_text(es) == admin_entry_text(es[0]));
        lemma_admin_entry_complete(s, i, es[0], end);
        if spec_expect(s, end, seq![',', '\n']) is Some {
            assert(s.subrange(end, end + 2) == seq![',', '\n']);
            assert(s[end] == s.subrange(end, end + 2)[0]);
            assert(false);
        }
        assert(seq![es[0]] =~= es);
    } else {
        let rest = es.subrange(1, es.len() as int);
        assert(admin_entries_text(es) == admin_entry_text(es[0]) + (seq![',', '\n']
            + admin_entries_text(rest)));
        lemma_split(s, i, end, admin_entry_text(es[0]), seq![',', '\n'] + admin_entries_text(rest));
        let p = i + admin_entry_text(es[0]).len();
        lemma_admin_entry_complete(s, i, es[0], p as int);
        lemma_split(s, p as int, end, seq![',', '\n'], admin_entries_text(rest));
        lemma_expect_at(s, p as int, seq![',', '\n']);
        lemma_admin_entries_complete(s, p + 2, rest, end);
        assert(seq![es[0]] + rest =~= es);
    }
}

/// Round trip of the admin file: parsing what the renderer wrote gives
/// exactly the admin records that were written.
#[verifier::rlimit(100)]
#[verifier::spinoff_prover]
pub proof fn lemma_admin_store_round_trip(es: Seq<AdminView>)
    ensures
        spec_parse_admin_file(admin_store_text(es)) == Some(es),
{
    let s = admin_store_text(es);
    if es.len() == 0 {
        assert(s == seq!['{', '}']);
        assert(!is_ws(s[0]));
        assert(!all_ws(s));
    } else {
        assert(s == seq!['{', '\n'] + (admin_entries_text(es) + seq!['\n', '}']));
        assert(s[0] == '{');
        assert(!is_ws(s[0]));
        assert(!all_ws(s));
        let el = admin_entries_text(es).len() as int;
        assert(admin_entries_text(es).len() >= 1) by {
            if es.len() == 1 {
                assert(admin_entries_text(es) == admin_entry_text(es[0]));
            }
            assert(admin_entry_text(es[0]).len() >= 2);
        }
        assert(s.len() == el + 4);
        if s == seq!['{', '}'] {
            assert(s.len() == 2);
            assert(false);
        }
        assert(s.subrange(0, s.len() as int) =~= s);
        lemma_split(s, 0, s.len() as int, seq!['{', '\n'], admin_entries_text(es) + seq![
            '\n',
            '}',
        ]);
        lemma_expect_at(s, 0, seq!['{', '\n']);
        lemma_split(s, 2, s.len() as int, admin_entries_text(es), seq!['\n', '}']);
        let end = 2 + el;
        assert(s[end] == s.subrange(end, s.len() as int)[0]);
        assert(s[end] == '\n');
        lemma_admin_entries_complete(s, 2, es, end);
        lemma_expect_at(s, end, seq!['\n', '}']);
    }
}

/// Render the admin records as the text of the admin file.
pub fn render_admin_file(admins: &Vec<Admin>) -> (r: String)
    ensures
        r@ == admin_store_text(admin_views_of(admins@)),
{
    let out = render_admin_records(admins);
    chars_to_string(&out)
}

/// Parse the text of the admin file back into admin records.
pub fn parse_admin_file(text: &str) -> (r: Result<Vec<Admin>, StoreError>)
    ensures
        match r {
            Ok(v) => spec_parse_admin_file(text@) == Some(admin_views_of(v@)),
            Err(e) => e == StoreError::ParseError && spec_parse_admin_file(text@) is None,
        },
{
    let chars = str_to_chars(text);
    parse_admin_records(&chars)
}

} // verus!
